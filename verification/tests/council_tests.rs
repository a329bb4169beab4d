use governance::council::Candidate;
use governance::council::CouncilError;
use governance::council::Entry;
use governance::council::Seat;
use governance::council::Voter;
use governance::CouncilState;
use governance::StakeLedger;
use governance::TestingConfig;

const ALICE: u64 = 1;
const BOB: u64 = 2;
const CHARLIE: u64 = 3;
const DAVE: u64 = 4;
const EVE: u64 = 5;
const FERDIE: u64 = 6;
const ONE: u64 = 7;

fn test_ledger() -> StakeLedger {
    let mut l = StakeLedger::new(210);
    l.refund(ALICE, 10);
    l.refund(BOB, 20);
    l.refund(CHARLIE, 30);
    l.refund(DAVE, 40);
    l.refund(EVE, 50);
    l.refund(FERDIE, 60);
    l.refund(ONE, 1);
    l
}

fn new_council() -> CouncilState {
    TestingConfig::new().council_state()
}

fn voter_accounts(c: &CouncilState) -> Vec<u64> {
    let mut out = Vec::new();
    for v in c.voters.iter() {
        out.push(v.who);
    }
    out
}

#[test]
fn basic_environment_works() {
    let c = new_council();
    assert_eq!(c.next_vote_from(1), 4);
    assert_eq!(c.next_vote_from(4), 4);
    assert_eq!(c.next_vote_from(5), 8);
    assert_eq!(c.vote_index, 0);
    assert_eq!(c.candidacy_bond, 9);
    assert_eq!(c.voting_bond, 3);
    assert_eq!(c.present_slash_per_voter, 1);
    assert_eq!(c.presentation_duration, 2);
    assert_eq!(c.voting_period, 4);
    assert_eq!(c.term_duration, 5);
    assert_eq!(c.desired_seats, 2);
    assert_eq!(c.carry_count, 2);
    assert!(c.active_council.is_empty());
    assert_eq!(c.next_tally(1), Some(4));
    assert!(!c.presentation_active());
    assert!(c.candidates.is_empty());
    assert!(!c.is_a_candidate(ALICE));
    assert!(c.voters.is_empty());
}

#[test]
fn simple_candidate_submission_should_work() {
    let mut c = new_council();
    let mut l = test_ledger();
    assert_eq!(c.submit_candidacy(&mut l, ALICE, 0), Ok(()));
    assert_eq!(c.candidates, vec![Some(Candidate { who: ALICE, since: 0 })]);
    assert!(c.is_a_candidate(ALICE));
    assert!(!c.is_a_candidate(BOB));
    assert_eq!(l.balance(ALICE), 1);
    assert_eq!(c.submit_candidacy(&mut l, BOB, 1), Ok(()));
    assert_eq!(
        c.candidates,
        vec![
            Some(Candidate { who: ALICE, since: 0 }),
            Some(Candidate { who: BOB, since: 0 })
        ]
    );
}

fn council_with_candidate_holes() -> CouncilState {
    let mut c = new_council();
    c.candidates = vec![None, None, Some(Candidate { who: ALICE, since: 0 })];
    c
}

#[test]
fn candidate_submission_using_free_slot_should_work() {
    let mut c = council_with_candidate_holes();
    let mut l = test_ledger();
    assert_eq!(c.submit_candidacy(&mut l, BOB, 1), Ok(()));
    assert_eq!(
        c.candidates,
        vec![
            None,
            Some(Candidate { who: BOB, since: 0 }),
            Some(Candidate { who: ALICE, since: 0 })
        ]
    );
    assert_eq!(c.submit_candidacy(&mut l, CHARLIE, 0), Ok(()));
    assert_eq!(
        c.candidates,
        vec![
            Some(Candidate { who: CHARLIE, since: 0 }),
            Some(Candidate { who: BOB, since: 0 }),
            Some(Candidate { who: ALICE, since: 0 })
        ]
    );
}

#[test]
fn candidate_submission_not_using_free_slot_is_rejected() {
    let mut c = council_with_candidate_holes();
    let mut l = test_ledger();
    assert_eq!(c.submit_candidacy(&mut l, DAVE, 3), Err(CouncilError::InvalidCandidateSlot));
}

#[test]
fn bad_candidate_slot_submission_is_rejected() {
    let mut c = new_council();
    let mut l = test_ledger();
    assert_eq!(c.submit_candidacy(&mut l, ALICE, 1), Err(CouncilError::InvalidCandidateSlot));
}

#[test]
fn non_free_candidate_slot_submission_is_rejected() {
    let mut c = new_council();
    let mut l = test_ledger();
    assert_eq!(c.submit_candidacy(&mut l, ALICE, 0), Ok(()));
    assert_eq!(c.submit_candidacy(&mut l, BOB, 0), Err(CouncilError::InvalidCandidateSlot));
}

#[test]
fn dupe_candidate_submission_is_rejected() {
    let mut c = new_council();
    let mut l = test_ledger();
    assert_eq!(c.submit_candidacy(&mut l, ALICE, 0), Ok(()));
    assert_eq!(
        c.submit_candidacy(&mut l, ALICE, 1),
        Err(CouncilError::DuplicateCandidateSubmission)
    );
}

#[test]
fn poor_candidate_submission_is_rejected() {
    let mut c = new_council();
    let mut l = test_ledger();
    assert_eq!(c.submit_candidacy(&mut l, ONE, 0), Err(CouncilError::CandidateNotEnoughFunds));
    assert_eq!(l.balance(ONE), 1);
}

#[test]
fn voting_should_work() {
    let mut c = new_council();
    let mut l = test_ledger();
    c.submit_candidacy(&mut l, EVE, 0).unwrap();
    c.set_approvals(&mut l, ALICE, vec![true], 0).unwrap();
    c.set_approvals(&mut l, DAVE, vec![true], 0).unwrap();
    assert_eq!(c.voters[0].approvals, vec![true]);
    assert_eq!(c.voters[1].approvals, vec![true]);
    assert_eq!(voter_accounts(&c), vec![ALICE, DAVE]);
    assert_eq!(l.reserved(ALICE), 3);
    c.submit_candidacy(&mut l, BOB, 1).unwrap();
    c.submit_candidacy(&mut l, CHARLIE, 2).unwrap();
    c.set_approvals(&mut l, BOB, vec![false, true, true], 0).unwrap();
    c.set_approvals(&mut l, CHARLIE, vec![false, true, true], 0).unwrap();
    assert_eq!(voter_accounts(&c), vec![ALICE, DAVE, BOB, CHARLIE]);
}

#[test]
fn resubmitting_voting_should_work() {
    let mut c = new_council();
    let mut l = test_ledger();
    c.submit_candidacy(&mut l, EVE, 0).unwrap();
    c.set_approvals(&mut l, DAVE, vec![true], 0).unwrap();
    assert_eq!(c.voters[0].approvals, vec![true]);
    c.submit_candidacy(&mut l, BOB, 1).unwrap();
    c.submit_candidacy(&mut l, CHARLIE, 2).unwrap();
    c.set_approvals(&mut l, DAVE, vec![true, false, true], 0).unwrap();
    assert_eq!(voter_accounts(&c), vec![DAVE]);
    assert_eq!(c.voters[0].approvals, vec![true, false, true]);
    // The bond is reserved only once.
    assert_eq!(l.reserved(DAVE), 3);
}

#[test]
fn retracting_voter_should_work() {
    let mut c = new_council();
    let mut l = test_ledger();
    c.submit_candidacy(&mut l, EVE, 0).unwrap();
    c.submit_candidacy(&mut l, BOB, 1).unwrap();
    c.submit_candidacy(&mut l, CHARLIE, 2).unwrap();
    c.set_approvals(&mut l, ALICE, vec![true], 0).unwrap();
    c.set_approvals(&mut l, BOB, vec![false, true, true], 0).unwrap();
    c.set_approvals(&mut l, CHARLIE, vec![false, true, true], 0).unwrap();
    c.set_approvals(&mut l, DAVE, vec![true, false, true], 0).unwrap();
    assert_eq!(voter_accounts(&c), vec![ALICE, BOB, CHARLIE, DAVE]);
    assert_eq!(c.retract_voter(&mut l, ALICE, 0), Ok(()));
    assert_eq!(voter_accounts(&c), vec![DAVE, BOB, CHARLIE]);
    assert_eq!(l.reserved(ALICE), 0);
    assert_eq!(c.retract_voter(&mut l, BOB, 1), Ok(()));
    assert_eq!(voter_accounts(&c), vec![DAVE, CHARLIE]);
    assert_eq!(c.retract_voter(&mut l, CHARLIE, 1), Ok(()));
    assert_eq!(voter_accounts(&c), vec![DAVE]);
}

#[test]
fn invalid_retraction_index_is_rejected() {
    let mut c = new_council();
    let mut l = test_ledger();
    c.submit_candidacy(&mut l, CHARLIE, 0).unwrap();
    c.set_approvals(&mut l, ALICE, vec![true], 0).unwrap();
    c.set_approvals(&mut l, BOB, vec![true], 0).unwrap();
    assert_eq!(c.retract_voter(&mut l, ALICE, 1), Err(CouncilError::RetractIndexMismatch));
}

#[test]
fn overflowing_retraction_index_is_rejected() {
    let mut c = new_council();
    let mut l = test_ledger();
    c.submit_candidacy(&mut l, CHARLIE, 0).unwrap();
    c.set_approvals(&mut l, ALICE, vec![true], 0).unwrap();
    assert_eq!(c.retract_voter(&mut l, ALICE, 1), Err(CouncilError::RetractIndexInvalid));
}

#[test]
fn non_voter_retraction_is_rejected() {
    let mut c = new_council();
    let mut l = test_ledger();
    c.submit_candidacy(&mut l, CHARLIE, 0).unwrap();
    c.set_approvals(&mut l, ALICE, vec![true], 0).unwrap();
    assert_eq!(c.retract_voter(&mut l, BOB, 0), Err(CouncilError::RetractNotVoter));
}

#[test]
fn simple_tally_should_work() {
    let mut c = new_council();
    let mut l = test_ledger();
    assert!(!c.presentation_active());
    c.submit_candidacy(&mut l, BOB, 0).unwrap();
    c.submit_candidacy(&mut l, EVE, 1).unwrap();
    c.set_approvals(&mut l, BOB, vec![true, false], 0).unwrap();
    c.set_approvals(&mut l, EVE, vec![false, true], 0).unwrap();
    c.end_block(&mut l, 4);

    assert!(c.presentation_active());
    assert_eq!(c.present_winner(&mut l, DAVE, BOB, 11, 0), Ok(()));
    assert_eq!(c.present_winner(&mut l, DAVE, EVE, 41, 0), Ok(()));
    assert_eq!(
        c.leaderboard,
        vec![
            Entry { stake: 0, who: 0 },
            Entry { stake: 0, who: 0 },
            Entry { stake: 11, who: BOB },
            Entry { stake: 41, who: EVE }
        ]
    );
    c.end_block(&mut l, 6);

    assert!(!c.presentation_active());
    assert_eq!(
        c.active_council,
        vec![Seat { who: EVE, expiry: 11 }, Seat { who: BOB, expiry: 11 }]
    );
    assert!(!c.is_a_candidate(BOB));
    assert!(!c.is_a_candidate(EVE));
    assert_eq!(c.vote_index, 1);
    assert_eq!(c.voters[0].last_active, 0);
    assert_eq!(c.voters[1].last_active, 0);
}

#[test]
fn double_presentations_should_be_punished() {
    let mut c = new_council();
    let mut l = test_ledger();
    assert!(l.can_slash(DAVE, 10));
    c.submit_candidacy(&mut l, BOB, 0).unwrap();
    c.submit_candidacy(&mut l, EVE, 1).unwrap();
    c.set_approvals(&mut l, BOB, vec![true, false], 0).unwrap();
    c.set_approvals(&mut l, EVE, vec![false, true], 0).unwrap();
    c.end_block(&mut l, 4);

    assert_eq!(c.present_winner(&mut l, DAVE, BOB, 11, 0), Ok(()));
    assert_eq!(c.present_winner(&mut l, DAVE, EVE, 41, 0), Ok(()));
    let board_before = c.leaderboard.clone();
    // The duplicate is a priced outcome, not an abort: the presenter is
    // slashed the full per-voter punishment and the board is untouched.
    assert_eq!(c.present_winner(&mut l, DAVE, EVE, 41, 0), Ok(()));
    assert_eq!(c.leaderboard, board_before);
    assert_eq!(l.balance(DAVE), 38);
    c.end_block(&mut l, 6);
    assert_eq!(
        c.active_council,
        vec![Seat { who: EVE, expiry: 11 }, Seat { who: BOB, expiry: 11 }]
    );
}

#[test]
fn invalid_present_tally_should_slash() {
    let mut c = new_council();
    let mut l = test_ledger();
    assert_eq!(l.balance(DAVE), 40);
    c.submit_candidacy(&mut l, BOB, 0).unwrap();
    c.submit_candidacy(&mut l, EVE, 1).unwrap();
    c.set_approvals(&mut l, BOB, vec![true, false], 0).unwrap();
    c.set_approvals(&mut l, EVE, vec![false, true], 0).unwrap();
    c.end_block(&mut l, 4);
    assert_eq!(c.present_winner(&mut l, DAVE, BOB, 80, 0), Ok(()));
    assert_eq!(l.balance(DAVE), 38);
}

#[test]
fn present_outside_of_presentation_period_is_rejected() {
    let mut c = new_council();
    let mut l = test_ledger();
    assert!(!c.presentation_active());
    assert_eq!(
        c.present_winner(&mut l, EVE, EVE, 1, 0),
        Err(CouncilError::PresentOutsidePresentationPeriod)
    );
}

#[test]
fn present_with_invalid_vote_index_is_rejected() {
    let mut c = new_council();
    let mut l = test_ledger();
    c.submit_candidacy(&mut l, BOB, 0).unwrap();
    c.set_approvals(&mut l, BOB, vec![true], 0).unwrap();
    c.end_block(&mut l, 4);
    assert_eq!(
        c.present_winner(&mut l, DAVE, BOB, 11, 1),
        Err(CouncilError::PresentIndexNotCurrent)
    );
}

#[test]
fn present_when_presenter_is_poor_is_rejected() {
    let mut c = new_council();
    let mut l = test_ledger();
    c.submit_candidacy(&mut l, ALICE, 0).unwrap();
    c.submit_candidacy(&mut l, EVE, 1).unwrap();
    c.set_approvals(&mut l, BOB, vec![true, false], 0).unwrap();
    c.set_approvals(&mut l, EVE, vec![false, true], 0).unwrap();
    c.end_block(&mut l, 4);
    assert_eq!(l.balance(ALICE), 1);
    assert_eq!(
        c.present_winner(&mut l, ALICE, ALICE, 30, 0),
        Err(CouncilError::PresentInsufficientSlashableFunds)
    );
}

#[test]
fn presenting_loser_is_rejected() {
    let mut c = new_council();
    let mut l = test_ledger();
    c.submit_candidacy(&mut l, ALICE, 0).unwrap();
    c.set_approvals(&mut l, FERDIE, vec![true], 0).unwrap();
    c.submit_candidacy(&mut l, BOB, 1).unwrap();
    c.set_approvals(&mut l, BOB, vec![false, true], 0).unwrap();
    c.submit_candidacy(&mut l, CHARLIE, 2).unwrap();
    c.set_approvals(&mut l, CHARLIE, vec![false, false, true], 0).unwrap();
    c.submit_candidacy(&mut l, DAVE, 3).unwrap();
    c.set_approvals(&mut l, DAVE, vec![false, false, false, true], 0).unwrap();
    c.submit_candidacy(&mut l, EVE, 4).unwrap();
    c.set_approvals(&mut l, EVE, vec![false, false, false, false, true], 0).unwrap();
    c.end_block(&mut l, 4);

    assert_eq!(c.present_winner(&mut l, DAVE, ALICE, 60, 0), Ok(()));
    assert_eq!(c.present_winner(&mut l, DAVE, CHARLIE, 21, 0), Ok(()));
    assert_eq!(c.present_winner(&mut l, DAVE, DAVE, 31, 0), Ok(()));
    assert_eq!(c.present_winner(&mut l, DAVE, EVE, 41, 0), Ok(()));
    assert_eq!(
        c.present_winner(&mut l, DAVE, BOB, 11, 0),
        Err(CouncilError::PresentCandidateNotWorthy)
    );
}

#[test]
fn presenting_loser_first_should_not_matter() {
    let mut c = new_council();
    let mut l = test_ledger();
    c.submit_candidacy(&mut l, ALICE, 0).unwrap();
    c.set_approvals(&mut l, FERDIE, vec![true], 0).unwrap();
    c.submit_candidacy(&mut l, BOB, 1).unwrap();
    c.set_approvals(&mut l, BOB, vec![false, true], 0).unwrap();
    c.submit_candidacy(&mut l, CHARLIE, 2).unwrap();
    c.set_approvals(&mut l, CHARLIE, vec![false, false, true], 0).unwrap();
    c.submit_candidacy(&mut l, DAVE, 3).unwrap();
    c.set_approvals(&mut l, DAVE, vec![false, false, false, true], 0).unwrap();
    c.submit_candidacy(&mut l, EVE, 4).unwrap();
    c.set_approvals(&mut l, EVE, vec![false, false, false, false, true], 0).unwrap();
    c.end_block(&mut l, 4);

    assert_eq!(c.present_winner(&mut l, DAVE, BOB, 11, 0), Ok(()));
    assert_eq!(c.present_winner(&mut l, DAVE, ALICE, 60, 0), Ok(()));
    assert_eq!(c.present_winner(&mut l, DAVE, CHARLIE, 21, 0), Ok(()));
    assert_eq!(c.present_winner(&mut l, DAVE, DAVE, 31, 0), Ok(()));
    assert_eq!(c.present_winner(&mut l, DAVE, EVE, 41, 0), Ok(()));
    assert_eq!(
        c.leaderboard,
        vec![
            Entry { stake: 21, who: CHARLIE },
            Entry { stake: 31, who: DAVE },
            Entry { stake: 41, who: EVE },
            Entry { stake: 60, who: ALICE }
        ]
    );
}

#[test]
fn runners_up_should_be_kept() {
    let mut c = new_council();
    let mut l = test_ledger();
    c.submit_candidacy(&mut l, ALICE, 0).unwrap();
    c.set_approvals(&mut l, FERDIE, vec![true], 0).unwrap();
    c.submit_candidacy(&mut l, BOB, 1).unwrap();
    c.set_approvals(&mut l, BOB, vec![false, true], 0).unwrap();
    c.submit_candidacy(&mut l, CHARLIE, 2).unwrap();
    c.set_approvals(&mut l, CHARLIE, vec![false, false, true], 0).unwrap();
    c.submit_candidacy(&mut l, DAVE, 3).unwrap();
    c.set_approvals(&mut l, DAVE, vec![false, false, false, true], 0).unwrap();
    c.submit_candidacy(&mut l, EVE, 4).unwrap();
    c.set_approvals(&mut l, EVE, vec![false, false, false, false, true], 0).unwrap();
    c.end_block(&mut l, 4);

    c.present_winner(&mut l, DAVE, ALICE, 60, 0).unwrap();
    assert_eq!(
        c.leaderboard,
        vec![
            Entry { stake: 0, who: 0 },
            Entry { stake: 0, who: 0 },
            Entry { stake: 0, who: 0 },
            Entry { stake: 60, who: ALICE }
        ]
    );
    c.present_winner(&mut l, DAVE, CHARLIE, 21, 0).unwrap();
    c.present_winner(&mut l, DAVE, DAVE, 31, 0).unwrap();
    c.present_winner(&mut l, DAVE, EVE, 41, 0).unwrap();
    c.end_block(&mut l, 6);

    assert!(!c.presentation_active());
    assert_eq!(
        c.active_council,
        vec![Seat { who: ALICE, expiry: 11 }, Seat { who: EVE, expiry: 11 }]
    );
    assert!(!c.is_a_candidate(ALICE));
    assert!(!c.is_a_candidate(EVE));
    assert!(!c.is_a_candidate(BOB));
    assert!(c.is_a_candidate(CHARLIE));
    assert!(c.is_a_candidate(DAVE));
    assert_eq!(c.vote_index, 1);
    assert_eq!(
        c.candidates,
        vec![
            None,
            None,
            Some(Candidate { who: CHARLIE, since: 0 }),
            Some(Candidate { who: DAVE, since: 0 })
        ]
    );
}

#[test]
fn second_tally_should_use_runners_up() {
    let mut c = new_council();
    let mut l = test_ledger();
    c.submit_candidacy(&mut l, ALICE, 0).unwrap();
    c.set_approvals(&mut l, FERDIE, vec![true], 0).unwrap();
    c.submit_candidacy(&mut l, BOB, 1).unwrap();
    c.set_approvals(&mut l, BOB, vec![false, true], 0).unwrap();
    c.submit_candidacy(&mut l, CHARLIE, 2).unwrap();
    c.set_approvals(&mut l, CHARLIE, vec![false, false, true], 0).unwrap();
    c.submit_candidacy(&mut l, DAVE, 3).unwrap();
    c.set_approvals(&mut l, DAVE, vec![false, false, false, true], 0).unwrap();
    c.submit_candidacy(&mut l, EVE, 4).unwrap();
    c.set_approvals(&mut l, EVE, vec![false, false, false, false, true], 0).unwrap();
    c.end_block(&mut l, 4);

    c.present_winner(&mut l, DAVE, ALICE, 60, 0).unwrap();
    c.present_winner(&mut l, DAVE, CHARLIE, 21, 0).unwrap();
    c.present_winner(&mut l, DAVE, DAVE, 31, 0).unwrap();
    c.present_winner(&mut l, DAVE, EVE, 41, 0).unwrap();
    c.end_block(&mut l, 6);

    c.set_approvals(&mut l, FERDIE, vec![false, false, true, false], 1).unwrap();
    c.set_desired_seats(3);
    c.end_block(&mut l, 8);

    c.present_winner(&mut l, DAVE, CHARLIE, 81, 1).unwrap();
    c.present_winner(&mut l, DAVE, DAVE, 31, 1).unwrap();
    c.end_block(&mut l, 10);

    assert!(!c.presentation_active());
    assert_eq!(
        c.active_council,
        vec![
            Seat { who: ALICE, expiry: 11 },
            Seat { who: EVE, expiry: 11 },
            Seat { who: CHARLIE, expiry: 15 }
        ]
    );
    assert!(!c.is_a_candidate(ALICE));
    assert!(!c.is_a_candidate(BOB));
    assert!(!c.is_a_candidate(CHARLIE));
    assert!(!c.is_a_candidate(EVE));
    assert!(c.is_a_candidate(DAVE));
    assert_eq!(c.vote_index, 2);
    let ferdie_pos = voter_accounts(&c).iter().position(|&w| w == FERDIE).unwrap();
    assert_eq!(c.voters[ferdie_pos].last_active, 1);
}

#[test]
fn presenting_for_double_election_is_rejected() {
    let mut c = new_council();
    let mut l = test_ledger();
    c.submit_candidacy(&mut l, BOB, 0).unwrap();
    c.set_approvals(&mut l, BOB, vec![true], 0).unwrap();
    c.end_block(&mut l, 4);
    c.present_winner(&mut l, DAVE, BOB, 11, 0).unwrap();
    c.end_block(&mut l, 6);

    c.submit_candidacy(&mut l, BOB, 0).unwrap();
    c.set_approvals(&mut l, BOB, vec![true], 1).unwrap();
    c.end_block(&mut l, 8);
    // Bob already sits on a seat that is not expiring this round.
    assert_eq!(
        c.present_winner(&mut l, DAVE, BOB, 11, 1),
        Err(CouncilError::PresentDuplicatedSeat)
    );
}

#[test]
fn reaping_inactive_voter_should_work() {
    let mut c = new_council();
    let mut l = test_ledger();
    c.submit_candidacy(&mut l, BOB, 0).unwrap();
    c.set_approvals(&mut l, BOB, vec![true], 0).unwrap();
    c.end_block(&mut l, 4);
    c.present_winner(&mut l, DAVE, BOB, 11, 0).unwrap();
    c.end_block(&mut l, 6);

    c.submit_candidacy(&mut l, EVE, 0).unwrap();
    c.set_approvals(&mut l, EVE, vec![true], 1).unwrap();
    c.end_block(&mut l, 8);
    c.present_winner(&mut l, DAVE, EVE, 41, 1).unwrap();
    c.end_block(&mut l, 10);

    let accounts = voter_accounts(&c);
    let eve_index = accounts.iter().position(|&w| w == EVE).unwrap() as u32;
    let bob_index = accounts.iter().position(|&w| w == BOB).unwrap() as u32;
    assert_eq!(c.reap_inactive_voter(&mut l, EVE, eve_index, BOB, bob_index, 2), Ok(()));
    assert_eq!(voter_accounts(&c), vec![EVE]);
    assert_eq!(l.balance(BOB), 17);
    assert_eq!(l.balance(EVE), 53);
}

#[test]
fn reaping_active_voter_should_slash_reporter() {
    // Bob's approval still backs a live candidate registered before his
    // last activity, so the accusation is frivolous: Dave, the reporter,
    // is the one removed, and his bond is burned.
    let mut c = new_council();
    let mut l = test_ledger();
    c.vote_index = 2;
    c.candidates = vec![Some(Candidate { who: EVE, since: 0 })];
    c.voters = vec![
        Voter { who: BOB, approvals: vec![true], last_active: 0 },
        Voter { who: DAVE, approvals: vec![false], last_active: 0 },
    ];
    l.reserve(BOB, 3);
    l.reserve(DAVE, 3);
    assert_eq!(c.reap_inactive_voter(&mut l, DAVE, 1, BOB, 0, 2), Ok(()));
    assert_eq!(voter_accounts(&c), vec![BOB]);
    assert_eq!(l.balance(DAVE), 37);
    assert_eq!(l.balance(BOB), 20);
}

#[test]
fn reaping_by_non_voter_is_rejected() {
    let mut c = new_council();
    let mut l = test_ledger();
    c.vote_index = 2;
    c.voters = vec![Voter { who: BOB, approvals: vec![], last_active: 0 }];
    assert_eq!(
        c.reap_inactive_voter(&mut l, DAVE, 0, BOB, 0, 2),
        Err(CouncilError::ReapReporterNotVoter)
    );
}

#[test]
fn reaping_with_bad_reporter_index_is_rejected() {
    let mut c = new_council();
    let mut l = test_ledger();
    c.vote_index = 2;
    c.voters = vec![
        Voter { who: BOB, approvals: vec![], last_active: 0 },
        Voter { who: EVE, approvals: vec![], last_active: 2 },
    ];
    assert_eq!(
        c.reap_inactive_voter(&mut l, EVE, 42, BOB, 0, 2),
        Err(CouncilError::ReapBadReporterIndex)
    );
}

#[test]
fn reaping_with_bad_target_index_is_rejected() {
    let mut c = new_council();
    let mut l = test_ledger();
    c.vote_index = 2;
    c.voters = vec![
        Voter { who: BOB, approvals: vec![], last_active: 0 },
        Voter { who: EVE, approvals: vec![], last_active: 2 },
    ];
    assert_eq!(
        c.reap_inactive_voter(&mut l, EVE, 1, BOB, 42, 2),
        Err(CouncilError::ReapBadTargetIndex)
    );
}

#[test]
fn reaping_a_non_voter_target_is_rejected() {
    let mut c = new_council();
    let mut l = test_ledger();
    c.vote_index = 2;
    c.voters = vec![Voter { who: EVE, approvals: vec![], last_active: 2 }];
    assert_eq!(
        c.reap_inactive_voter(&mut l, EVE, 0, BOB, 0, 2),
        Err(CouncilError::ReapTargetNotVoter)
    );
}

#[test]
fn reaping_with_stale_vote_index_is_rejected() {
    let mut c = new_council();
    let mut l = test_ledger();
    c.vote_index = 3;
    c.voters = vec![
        Voter { who: BOB, approvals: vec![], last_active: 0 },
        Voter { who: EVE, approvals: vec![], last_active: 2 },
    ];
    assert_eq!(
        c.reap_inactive_voter(&mut l, EVE, 1, BOB, 0, 2),
        Err(CouncilError::ReapIndexNotCurrent)
    );
}

#[test]
fn presenting_an_unregistered_candidate_is_rejected() {
    let mut c = new_council();
    let mut l = test_ledger();
    c.submit_candidacy(&mut l, BOB, 0).unwrap();
    c.set_approvals(&mut l, BOB, vec![true], 0).unwrap();
    c.end_block(&mut l, 4);
    assert!(c.presentation_active());
    assert_eq!(
        c.present_winner(&mut l, DAVE, EVE, 11, 0),
        Err(CouncilError::PresentCandidateNotRegistered)
    );
}

#[test]
fn stale_approvals_do_not_count_for_a_new_occupant() {
    // Bob approved slot 0 while he occupied it himself. After the election
    // Eve takes the freed slot; Bob's old approval must not count toward
    // her tally, so a claim including his stake is invalid and slashed,
    // while the claim of Eve's stake alone is exact.
    let mut c = new_council();
    let mut l = test_ledger();
    c.submit_candidacy(&mut l, BOB, 0).unwrap();
    c.set_approvals(&mut l, BOB, vec![true], 0).unwrap();
    c.end_block(&mut l, 4);
    c.present_winner(&mut l, DAVE, BOB, 11, 0).unwrap();
    c.end_block(&mut l, 6);

    c.submit_candidacy(&mut l, EVE, 0).unwrap();
    c.set_approvals(&mut l, EVE, vec![true], 1).unwrap();
    c.end_block(&mut l, 8);

    let dave_before = l.balance(DAVE);
    // Bob's snapshot stake is 20 and Eve's is 41: claiming 61 counts the
    // stale approval and must cost the presenter.
    assert_eq!(c.present_winner(&mut l, DAVE, EVE, 61, 1), Ok(()));
    assert_eq!(l.balance(DAVE), dave_before - 2);
    assert_eq!(c.present_winner(&mut l, DAVE, EVE, 41, 1), Ok(()));
    c.end_block(&mut l, 10);
    assert_eq!(c.active_council[1], Seat { who: EVE, expiry: 15 });
}

#[test]
fn reaping_within_grace_period_is_rejected() {
    let mut c = new_council();
    let mut l = test_ledger();
    c.vote_index = 1;
    c.voters = vec![
        Voter { who: BOB, approvals: vec![], last_active: 0 },
        Voter { who: EVE, approvals: vec![], last_active: 1 },
    ];
    assert_eq!(
        c.reap_inactive_voter(&mut l, EVE, 1, BOB, 0, 1),
        Err(CouncilError::ReapGracePeriod)
    );
}

#[test]
fn slot_reuse_after_election() {
    // After an election cleared both candidates, a fresh submission must
    // take a freed slot: the sequence may not grow while a hole is left.
    let mut c = new_council();
    let mut l = test_ledger();
    c.submit_candidacy(&mut l, BOB, 0).unwrap();
    c.submit_candidacy(&mut l, EVE, 1).unwrap();
    c.set_approvals(&mut l, BOB, vec![true, false], 0).unwrap();
    c.set_approvals(&mut l, EVE, vec![false, true], 0).unwrap();
    c.end_block(&mut l, 4);
    c.present_winner(&mut l, DAVE, BOB, 11, 0).unwrap();
    c.present_winner(&mut l, DAVE, EVE, 41, 0).unwrap();
    c.end_block(&mut l, 6);
    assert_eq!(c.candidates, vec![None, None]);

    assert_eq!(c.submit_candidacy(&mut l, CHARLIE, 2), Err(CouncilError::InvalidCandidateSlot));
    assert_eq!(c.submit_candidacy(&mut l, CHARLIE, 0), Ok(()));
    assert_eq!(
        c.candidates,
        vec![Some(Candidate { who: CHARLIE, since: 1 }), None]
    );
}

#[test]
fn approvals_during_presentation_are_rejected() {
    let mut c = new_council();
    let mut l = test_ledger();
    c.submit_candidacy(&mut l, BOB, 0).unwrap();
    c.set_approvals(&mut l, BOB, vec![true], 0).unwrap();
    c.end_block(&mut l, 4);
    assert!(c.presentation_active());
    assert_eq!(
        c.set_approvals(&mut l, EVE, vec![true], 0),
        Err(CouncilError::ApprovalPresentationActive)
    );
    assert_eq!(c.retract_voter(&mut l, BOB, 0), Err(CouncilError::RetractPresentationActive));
    assert_eq!(
        c.reap_inactive_voter(&mut l, BOB, 0, BOB, 0, 0),
        Err(CouncilError::ReapPresentationActive)
    );
}

#[test]
fn stale_vote_index_is_rejected() {
    let mut c = new_council();
    let mut l = test_ledger();
    assert_eq!(
        c.set_approvals(&mut l, BOB, vec![true], 1),
        Err(CouncilError::ApprovalIndexNotCurrent)
    );
}

#[test]
fn unaffordable_voting_bond_is_rejected() {
    let mut c = new_council();
    let mut l = test_ledger();
    assert_eq!(
        c.set_approvals(&mut l, ONE, vec![true], 0),
        Err(CouncilError::ApprovalBondUnaffordable)
    );
}

#[test]
fn remove_member_drops_every_seat() {
    let mut c = TestingConfig::with_council().council_state();
    c.remove_member(2);
    assert_eq!(
        c.active_council,
        vec![Seat { who: 1, expiry: 10 }, Seat { who: 3, expiry: 10 }]
    );
}
