//! The council election engine: bonded candidacies, approval voting with
//! lazy vote clearing, and a contested presentation phase that fills expiring
//! council seats from a verified leaderboard.
//!
//! All state lives in an explicit [`CouncilState`] value; bonds are drawn
//! from a [`StakeLedger`] passed to each operation. Every operation either
//! succeeds, or fails with a named [`CouncilError`] and changes nothing.

use vstd::prelude::*;

use crate::ledger::min_u64;
use crate::ledger::StakeLedger;

verus! {

/// A voter: account, positional approvals over candidate slots, and the
/// election index at which the approvals were last confirmed.
#[derive(Debug)]
pub struct Voter {
    pub who: u64,
    pub approvals: Vec<bool>,
    pub last_active: u32,
}

/// A registered candidate: account and the election index at registration.
#[derive(Clone, Copy, PartialEq, Eq, Structural, Debug)]
pub struct Candidate {
    pub who: u64,
    pub since: u32,
}

/// A council seat: holder and the block at which the seat expires.
#[derive(Clone, Copy, PartialEq, Eq, Structural, Debug)]
pub struct Seat {
    pub who: u64,
    pub expiry: u64,
}

/// A leaderboard line: verified stake total and the candidate it backs.
/// `stake == 0` marks an unclaimed line; its `who` is meaningless.
#[derive(Clone, Copy, PartialEq, Eq, Structural, Debug)]
pub struct Entry {
    pub stake: u64,
    pub who: u64,
}

/// An open presentation window: when it closes, how many seats it fills, and
/// the holders of the seats expiring with it.
#[derive(Debug)]
pub struct TallyWindow {
    pub finalise_at: u64,
    pub seats: u32,
    pub expiring: Vec<u64>,
}

/// The named failure conditions of council operations.
#[derive(Clone, Copy, PartialEq, Eq, Structural, Debug)]
pub enum CouncilError {
    /// Approvals cannot change while a presentation window is open.
    ApprovalPresentationActive,
    /// The submitted election index is not the current one.
    ApprovalIndexNotCurrent,
    /// A first-time voter could not reserve the voting bond.
    ApprovalBondUnaffordable,
    /// Reaping is barred while a presentation window is open.
    ReapPresentationActive,
    /// The reporter is not a registered voter.
    ReapReporterNotVoter,
    /// The reap target is not a registered voter.
    ReapTargetNotVoter,
    /// The assumed election index is not the current one.
    ReapIndexNotCurrent,
    /// The target was active within the inactivity grace period.
    ReapGracePeriod,
    /// The reporter's claimed voter-sequence index does not name them.
    ReapBadReporterIndex,
    /// The target's claimed voter-sequence index does not name them.
    ReapBadTargetIndex,
    /// Retraction is barred while a presentation window is open.
    RetractPresentationActive,
    /// Only registered voters can retract.
    RetractNotVoter,
    /// The retraction index is outside the voter sequence.
    RetractIndexInvalid,
    /// The retraction index names a different voter.
    RetractIndexMismatch,
    /// The caller is already a registered candidate.
    DuplicateCandidateSubmission,
    /// The caller cannot pay the candidacy bond.
    CandidateNotEnoughFunds,
    /// The slot neither appends to the sequence nor fills an empty slot.
    InvalidCandidateSlot,
    /// The submitted election index is not the current one.
    PresentIndexNotCurrent,
    /// No presentation window is open.
    PresentOutsidePresentationPeriod,
    /// The presenter cannot cover the bad-presentation punishment.
    PresentInsufficientSlashableFunds,
    /// The claimed total does not beat the lowest leaderboard line.
    PresentCandidateNotWorthy,
    /// The candidate holds a seat that is not expiring this round.
    PresentDuplicatedSeat,
    /// The presented account is not a registered candidate.
    PresentCandidateNotRegistered,
}

/// The council election engine's entire state: configuration parameters,
/// the standing electoral registers, and the transient presentation window.
///
/// The leaderboard and the stake snapshot exist only while a window is open;
/// outside one both are empty.
pub struct CouncilState {
    /// Non-refundable price of submitting a candidacy.
    pub candidacy_bond: u64,
    /// Bond reserved from an account while it is a voter.
    pub voting_bond: u64,
    /// Punishment per voter for an invalid presentation.
    pub present_slash_per_voter: u64,
    /// How many runners-up keep their candidacies between elections.
    pub carry_count: u32,
    /// How many blocks a presentation window stays open.
    pub presentation_duration: u64,
    /// Elections a voter may sit out before becoming reapable.
    pub inactivity_grace_period: u32,
    /// Elections start only at multiples of this period.
    pub voting_period: u64,
    /// How many blocks an elected seat lasts.
    pub term_duration: u64,
    /// The number of seats the council should have.
    pub desired_seats: u32,
    /// The sitting council, ordered by ascending seat expiry.
    pub active_council: Vec<Seat>,
    /// Index of the current election.
    pub vote_index: u32,
    /// The registered voters, in registration order.
    pub voters: Vec<Voter>,
    /// The candidate slots; `None` is a reusable hole.
    pub candidates: Vec<Option<Candidate>>,
    /// The open presentation window, if any.
    pub next_finalise: Option<TallyWindow>,
    /// Voter stakes snapshotted when voting closed; parallel to `voters`.
    pub snapshoted_stakes: Vec<u64>,
    /// Verified totals, ascending by stake; lowest line is displaced first.
    pub leaderboard: Vec<Entry>,
}

/// A bundle of election parameters for setting up a council engine, with
/// the bond and punishment constants the test environments share: a
/// candidacy bond of 9, a voting bond of 3, a punishment rate of 1 per
/// voter, 2 carried runners-up and a 1-election inactivity grace period.
pub struct TestingConfig {
    /// The seats sitting when the engine starts, ascending by expiry.
    pub active_council: Vec<Seat>,
    /// The council's voting period.
    pub approval_voting_period: u64,
    /// How long each presentation window stays open.
    pub presentation_period: u64,
    /// The number of seats the council should have.
    pub desired_seats: u32,
    /// How long an elected seat lasts.
    pub term_duration: u64,
    /// Cool-off period for the council's own internal voting.
    pub cooloff_period: u64,
    /// Voting period for the council's own internal voting.
    pub voting_period: u64,
}

impl TestingConfig {
    /// A small live configuration: elections every 4 blocks, 2-block
    /// presentation windows, 2 desired seats, 5-block terms, and no
    /// sitting council.
    pub fn new() -> (r: TestingConfig)
        ensures
            r.active_council@.len() == 0,
            r.approval_voting_period == 4,
            r.presentation_period == 2,
            r.desired_seats == 2,
            r.term_duration == 5,
            r.cooloff_period == 2,
            r.voting_period == 1,
    {
        TestingConfig {
            active_council: Vec::new(),
            approval_voting_period: 4,
            presentation_period: 2,
            desired_seats: 2,
            term_duration: 5,
            cooloff_period: 2,
            voting_period: 1,
        }
    }

    /// The live configuration of `new`, with three seats (accounts 1, 2
    /// and 3) already sitting until block 10.
    pub fn with_council() -> (r: TestingConfig)
        ensures
            r.active_council@ == seq![
                Seat { who: 1u64, expiry: 10u64 },
                Seat { who: 2u64, expiry: 10u64 },
                Seat { who: 3u64, expiry: 10u64 },
            ],
            r.approval_voting_period == 4,
            r.presentation_period == 2,
            r.desired_seats == 2,
            r.term_duration == 5,
            r.cooloff_period == 2,
            r.voting_period == 1,
    {
        let mut council: Vec<Seat> = Vec::new();
        council.push(Seat { who: 1, expiry: 10 });
        council.push(Seat { who: 2, expiry: 10 });
        council.push(Seat { who: 3, expiry: 10 });
        proof {
            assert(council@ =~= seq![
                Seat { who: 1u64, expiry: 10u64 },
                Seat { who: 2u64, expiry: 10u64 },
                Seat { who: 3u64, expiry: 10u64 },
            ]);
        }
        TestingConfig {
            active_council: council,
            approval_voting_period: 4,
            presentation_period: 2,
            desired_seats: 2,
            term_duration: 5,
            cooloff_period: 2,
            voting_period: 1,
        }
    }

    /// The council engine this configuration describes, with the shared
    /// bond constants filled in.
    pub fn council_state(&self) -> (r: CouncilState)
        requires
            self.approval_voting_period >= 1,
            seats_sorted(self.active_council@),
        ensures
            r.wf(),
            r.candidacy_bond == 9,
            r.voting_bond == 3,
            r.present_slash_per_voter == 1,
            r.carry_count == 2,
            r.presentation_duration == self.presentation_period,
            r.inactivity_grace_period == 1,
            r.voting_period == self.approval_voting_period,
            r.term_duration == self.term_duration,
            r.desired_seats == self.desired_seats,
            r.active_council@ == self.active_council@,
            r.vote_index == 0,
            r.voters@.len() == 0,
            r.candidates@.len() == 0,
            !r.presentation_active_spec(),
    {
        let mut council: Vec<Seat> = Vec::new();
        let mut k: usize = 0;
        while k < self.active_council.len()
            invariant
                k <= self.active_council@.len(),
                council@ == self.active_council@.subrange(0, k as int),
            decreases self.active_council@.len() - k,
        {
            proof {
                assert(self.active_council@.subrange(0, k + 1) =~= self.active_council@.subrange(
                    0,
                    k as int,
                ).push(self.active_council@[k as int]));
            }
            council.push(self.active_council[k]);
            k += 1;
        }
        proof {
            assert(self.active_council@.subrange(0, self.active_council@.len() as int) =~= self
                .active_council@);
        }
        CouncilState {
            candidacy_bond: 9,
            voting_bond: 3,
            present_slash_per_voter: 1,
            carry_count: 2,
            presentation_duration: self.presentation_period,
            inactivity_grace_period: 1,
            voting_period: self.approval_voting_period,
            term_duration: self.term_duration,
            desired_seats: self.desired_seats,
            active_council: council,
            vote_index: 0,
            voters: Vec::new(),
            candidates: Vec::new(),
            next_finalise: None,
            snapshoted_stakes: Vec::new(),
            leaderboard: Vec::new(),
        }
    }
}

impl Default for TestingConfig {
    /// An idle configuration: kilo-block periods and no desired seats, so
    /// no election ever starts on its own.
    fn default() -> (r: TestingConfig)
        ensures
            r.active_council@.len() == 0,
            r.approval_voting_period == 1000,
            r.presentation_period == 1000,
            r.desired_seats == 0,
            r.term_duration == 5,
            r.cooloff_period == 1000,
            r.voting_period == 1000,
    {
        TestingConfig {
            active_council: Vec::new(),
            approval_voting_period: 1000,
            presentation_period: 1000,
            desired_seats: 0,
            term_duration: 5,
            cooloff_period: 1000,
            voting_period: 1000,
        }
    }
}

/// `who` occupies some position in the voter sequence.
pub open spec fn is_voter_in(s: Seq<Voter>, who: u64) -> bool {
    exists|i: int| 0 <= i < s.len() && s[i].who == who
}

/// The election index at which `who` last confirmed approvals; 0 when `who`
/// is not a voter.
pub open spec fn last_active_of(s: Seq<Voter>, who: u64) -> u32
    decreases s.len(),
{
    if s.len() == 0 {
        0u32
    } else if s[0].who == who {
        s[0].last_active
    } else {
        last_active_of(s.drop_first(), who)
    }
}

/// The approval vector of `who`; empty when `who` is not a voter.
pub open spec fn approvals_of(s: Seq<Voter>, who: u64) -> Seq<bool>
    decreases s.len(),
{
    if s.len() == 0 {
        Seq::empty()
    } else if s[0].who == who {
        s[0].approvals@
    } else {
        approvals_of(s.drop_first(), who)
    }
}

/// In a duplicate-free voter sequence the position of `who` determines their
/// record.
pub proof fn lemma_voter_lookup(s: Seq<Voter>, i: int)
    requires
        voters_distinct(s),
        0 <= i < s.len(),
    ensures
        last_active_of(s, s[i].who) == s[i].last_active,
        approvals_of(s, s[i].who) == s[i].approvals@,
    decreases s.len(),
{
    if i > 0 {
        lemma_voter_lookup(s.drop_first(), i - 1);
    }
}

/// The removal a `swap_remove` performs: the last element takes the removed
/// one's place.
pub open spec fn swap_removed<A>(s: Seq<A>, i: int) -> Seq<A> {
    s.update(i, s.last()).drop_last()
}

/// Removing voter `i` from a duplicate-free sequence removes exactly that
/// voter: the result is duplicate-free, their account is gone, and every
/// other account keeps its registration.
pub proof fn lemma_swap_remove_voter(s: Seq<Voter>, i: int)
    requires
        voters_distinct(s),
        0 <= i < s.len(),
    ensures
        voters_distinct(swap_removed(s, i)),
        swap_removed(s, i).len() == s.len() - 1,
        !is_voter_in(swap_removed(s, i), s[i].who),
        forall|w: u64| w != s[i].who && is_voter_in(s, w) ==> is_voter_in(swap_removed(s, i), w),
        forall|w: u64| !is_voter_in(s, w) ==> !is_voter_in(swap_removed(s, i), w),
{
    let r = swap_removed(s, i);
    assert forall|k: int| 0 <= k < r.len() implies r[k] == (if k == i {
        s[s.len() - 1]
    } else {
        s[k]
    }) by {}
    assert forall|w: u64| w != s[i].who && is_voter_in(s, w) implies is_voter_in(r, w) by {
        let k = choose|k: int| 0 <= k < s.len() && s[k].who == w;
        if k == i {
        } else if k == s.len() - 1 {
            assert(r[i].who == w);
        } else {
            assert(r[k].who == w);
        }
    }
    assert forall|w: u64| !is_voter_in(s, w) implies !is_voter_in(r, w) by {
        if is_voter_in(r, w) {
            let k = choose|k: int| 0 <= k < r.len() && r[k].who == w;
            if k == i {
                assert(s[s.len() - 1].who == w);
            } else {
                assert(s[k].who == w);
            }
        }
    }
    if is_voter_in(r, s[i].who) {
        let k = choose|k: int| 0 <= k < r.len() && r[k].who == s[i].who;
        if k == i {
            assert(s[s.len() - 1].who == s[i].who);
            assert(i < s.len() - 1);
        }
    }
}

/// Voters are registered at most once.
pub open spec fn voters_distinct(s: Seq<Voter>) -> bool {
    forall|i: int, j: int| 0 <= i < j < s.len() ==> s[i].who != s[j].who
}

/// `who` occupies some candidate slot.
pub open spec fn is_candidate_in(s: Seq<Option<Candidate>>, who: u64) -> bool {
    exists|i: int| #![trigger s[i]] 0 <= i < s.len() && s[i] is Some && s[i]->0.who == who
}

/// No account occupies two candidate slots.
pub open spec fn candidates_distinct(s: Seq<Option<Candidate>>) -> bool {
    forall|i: int, j: int|
        0 <= i < j < s.len() && s[i] is Some && s[j] is Some ==> s[i]->0.who != s[j]->0.who
}

/// Number of occupied candidate slots.
pub open spec fn occupied_count(s: Seq<Option<Candidate>>) -> int
    decreases s.len(),
{
    if s.len() == 0 {
        0int
    } else {
        occupied_count(s.drop_last()) + if s.last() is Some {
            1int
        } else {
            0int
        }
    }
}

/// Seat expiries never decrease along the sequence.
pub open spec fn seats_sorted(c: Seq<Seat>) -> bool {
    forall|i: int, j: int| 0 <= i <= j < c.len() ==> c[i].expiry <= c[j].expiry
}

/// The seat sequence with every seat of `who` removed, order kept.
pub open spec fn seats_without(c: Seq<Seat>, who: u64) -> Seq<Seat>
    decreases c.len(),
{
    if c.len() == 0 {
        Seq::empty()
    } else {
        let rest = seats_without(c.drop_last(), who);
        if c.last().who == who {
            rest
        } else {
            rest.push(c.last())
        }
    }
}

/// Removing one account's seats keeps the order and hence the sorting, and
/// every kept seat comes from the original sequence.
pub proof fn lemma_seats_without(c: Seq<Seat>, who: u64)
    ensures
        seats_sorted(c) ==> seats_sorted(seats_without(c, who)),
        forall|i: int|
            #![trigger seats_without(c, who)[i]]
            0 <= i < seats_without(c, who).len() ==> exists|j: int|
                0 <= j < c.len() && seats_without(c, who)[i] == c[j],
        seats_without(c, who).len() <= c.len(),
        forall|i: int|
            #![trigger seats_without(c, who)[i]]
            0 <= i < seats_without(c, who).len() ==> seats_without(c, who)[i].who != who,
    decreases c.len(),
{
    if c.len() > 0 {
        lemma_seats_without(c.drop_last(), who);
        let rest = seats_without(c.drop_last(), who);
        if c.last().who != who {
            let r = rest.push(c.last());
            assert forall|i: int| #![trigger r[i]] 0 <= i < r.len() implies (exists|j: int|
                0 <= j < c.len() && r[i] == c[j]) && r[i].who != who by {
                if i < rest.len() {
                    assert(r[i] == rest[i]);
                    let j = choose|j: int| 0 <= j < c.drop_last().len() && rest[i] == c.drop_last()[j];
                    assert(c.drop_last()[j] == c[j]);
                } else {
                    assert(r[i] == c[c.len() - 1]);
                }
            }
            if seats_sorted(c) {
                assert(seats_sorted(c.drop_last()));
                assert forall|i: int, j: int| 0 <= i <= j < r.len() implies r[i].expiry
                    <= r[j].expiry by {
                    if j < rest.len() {
                    } else {
                        if i < rest.len() {
                            let m = choose|m: int|
                                0 <= m < c.drop_last().len() && rest[i] == c.drop_last()[m];
                            assert(c[m].expiry <= c[c.len() - 1].expiry);
                        }
                    }
                }
            }
        } else {
            if seats_sorted(c) {
                assert(seats_sorted(c.drop_last()));
            }
        }
    }
}

/// Leaderboard stakes never decrease along the sequence.
pub open spec fn entries_sorted(s: Seq<Entry>) -> bool {
    forall|i: int, j: int| 0 <= i <= j < s.len() ==> s[i].stake <= s[j].stake
}

/// Some leaderboard line, claimed or not, carries `who`.
pub open spec fn lb_has_who(s: Seq<Entry>, who: u64) -> bool {
    exists|i: int| 0 <= i < s.len() && s[i].who == who
}

/// The first index whose stake is at least `stake`; the length when none is.
pub open spec fn entries_geq_pos(s: Seq<Entry>, stake: u64) -> int
    decreases s.len(),
{
    if s.len() == 0 {
        0int
    } else if s[0].stake >= stake {
        0int
    } else {
        1 + entries_geq_pos(s.drop_first(), stake)
    }
}

/// `entries_geq_pos` splits the sequence: strictly smaller stakes before it,
/// the first not-smaller stake (if any) at it.
pub proof fn lemma_entries_geq_pos(s: Seq<Entry>, stake: u64)
    ensures
        0 <= entries_geq_pos(s, stake) <= s.len(),
        forall|k: int| 0 <= k < entries_geq_pos(s, stake) ==> s[k].stake < stake,
        entries_geq_pos(s, stake) < s.len() ==> s[entries_geq_pos(s, stake)].stake >= stake,
    decreases s.len(),
{
    if s.len() > 0 && s[0].stake < stake {
        lemma_entries_geq_pos(s.drop_first(), stake);
        assert forall|k: int| 0 <= k < entries_geq_pos(s, stake) implies s[k].stake < stake by {
            if k > 0 {
                assert(s.drop_first()[k - 1] == s[k]);
            }
        }
    }
}

/// The leaderboard after an accepted presentation: the lowest line leaves,
/// the new line enters before any line of equal stake.
pub open spec fn lb_after_present(s: Seq<Entry>, e: Entry) -> Seq<Entry> {
    let rest = s.drop_first();
    rest.insert(entries_geq_pos(rest, e.stake), e)
}

/// Occupied slots never outnumber slots, and a hole keeps the count
/// strictly below the length.
pub proof fn lemma_occupied_count(s: Seq<Option<Candidate>>)
    ensures
        0 <= occupied_count(s) <= s.len(),
        (exists|h: int| 0 <= h < s.len() && s[h] is None) ==> occupied_count(s) < s.len(),
    decreases s.len(),
{
    if s.len() > 0 {
        lemma_occupied_count(s.drop_last());
        if exists|h: int| 0 <= h < s.len() && s[h] is None {
            let h = choose|h: int| 0 <= h < s.len() && s[h] is None;
            if h < s.len() - 1 {
                assert(s.drop_last()[h] is None);
            }
        }
    }
}

/// Slot reuse: while any candidate slot is a hole, a submission cannot
/// grow the sequence — the end-of-sequence slot argument is invalid — and
/// every hole is itself a valid slot argument.
pub proof fn lemma_slot_reuse(c: CouncilState, h: int)
    requires
        c.wf(),
        c.candidates@.len() <= u32::MAX,
        0 <= h < c.candidates@.len(),
        c.candidates@[h] is None,
    ensures
        !c.slot_valid(c.candidates@.len() as u32),
        c.slot_valid(h as u32),
{
    lemma_occupied_count(c.candidates@);
}

/// Lazy-approval staleness, voter by voter: an approval vector last
/// confirmed before a candidate's registration contributes nothing to that
/// candidate's tally, whatever it marks.
pub proof fn lemma_stale_approval(
    voters: Seq<Voter>,
    stakes: Seq<u64>,
    since: u32,
    slot: int,
    i: int,
)
    requires
        0 <= i < voters.len(),
        voters[i].last_active < since,
    ensures
        stake_contrib(voters[i], stakes[i], since, slot) == 0,
{
}

/// Lazy-approval staleness: when every voter last confirmed approvals
/// before a candidate's registration, the candidate's recomputed tally is
/// zero — stale approvals meant for a slot's earlier occupant elect no one.
pub proof fn lemma_stale_approvals_ignored(
    voters: Seq<Voter>,
    stakes: Seq<u64>,
    since: u32,
    slot: int,
)
    requires
        forall|i: int| 0 <= i < voters.len() ==> voters[i].last_active < since,
    ensures
        approval_stake(voters, stakes, since, slot) == 0,
{
    assert forall|k: int| 0 <= k <= voters.len() implies approval_stake_upto(
        voters,
        stakes,
        since,
        slot,
        k,
    ) == 0 by {
        lemma_stale_upto(voters, stakes, since, slot, k);
    }
}

proof fn lemma_stale_upto(voters: Seq<Voter>, stakes: Seq<u64>, since: u32, slot: int, k: int)
    requires
        forall|i: int| 0 <= i < voters.len() ==> voters[i].last_active < since,
        k <= voters.len(),
    ensures
        approval_stake_upto(voters, stakes, since, slot, k) == 0,
    decreases k,
{
    if k > 0 {
        lemma_stale_upto(voters, stakes, since, slot, k - 1);
    }
}

/// Number of leading council seats expiring exactly at block `now`.
pub open spec fn expiring_prefix(c: Seq<Seat>, now: u64) -> int
    decreases c.len(),
{
    if c.len() == 0 {
        0int
    } else if c[0].expiry == now {
        1 + expiring_prefix(c.drop_first(), now)
    } else {
        0int
    }
}

/// `expiring_prefix` counts exactly the leading run of seats expiring now.
pub proof fn lemma_expiring_prefix(c: Seq<Seat>, now: u64)
    ensures
        0 <= expiring_prefix(c, now) <= c.len(),
        forall|i: int| 0 <= i < expiring_prefix(c, now) ==> c[i].expiry == now,
        expiring_prefix(c, now) < c.len() ==> c[expiring_prefix(c, now)].expiry != now,
    decreases c.len(),
{
    if c.len() > 0 && c[0].expiry == now {
        lemma_expiring_prefix(c.drop_first(), now);
        assert forall|i: int| 0 <= i < expiring_prefix(c, now) implies c[i].expiry == now by {
            if i > 0 {
                assert(c.drop_first()[i - 1] == c[i]);
            }
        }
        if expiring_prefix(c, now) < c.len() {
            assert(c.drop_first()[expiring_prefix(c, now) - 1] == c[expiring_prefix(c, now)]);
        }
    }
}

/// Number of leading seats of `c` expiring no later than block `x`.
pub open spec fn leq_prefix(c: Seq<Seat>, x: u64) -> int
    decreases c.len(),
{
    if c.len() == 0 {
        0int
    } else if c[0].expiry <= x {
        1 + leq_prefix(c.drop_first(), x)
    } else {
        0int
    }
}

/// `leq_prefix` counts exactly the leading run of seats expiring by `x`.
pub proof fn lemma_leq_prefix(c: Seq<Seat>, x: u64)
    ensures
        0 <= leq_prefix(c, x) <= c.len(),
        forall|i: int| 0 <= i < leq_prefix(c, x) ==> c[i].expiry <= x,
        leq_prefix(c, x) < c.len() ==> c[leq_prefix(c, x)].expiry > x,
    decreases c.len(),
{
    if c.len() > 0 && c[0].expiry <= x {
        lemma_leq_prefix(c.drop_first(), x);
        assert forall|i: int| 0 <= i < leq_prefix(c, x) implies c[i].expiry <= x by {
            if i > 0 {
                assert(c.drop_first()[i - 1] == c[i]);
            }
        }
        if leq_prefix(c, x) < c.len() {
            assert(c.drop_first()[leq_prefix(c, x) - 1] == c[leq_prefix(c, x)]);
        }
    }
}

/// The leaderboard read from the top down, stopping at the first unclaimed
/// line: the candidates in play at finalisation, best first.
pub open spec fn ranked_nonzero(s: Seq<Entry>) -> Seq<Entry>
    decreases s.len(),
{
    if s.len() == 0 {
        Seq::empty()
    } else if s.last().stake == 0 {
        Seq::empty()
    } else {
        seq![s.last()] + ranked_nonzero(s.drop_last())
    }
}

/// `ranked_nonzero` mirrors the claimed suffix of the leaderboard.
pub proof fn lemma_ranked_nonzero(s: Seq<Entry>)
    ensures
        0 <= ranked_nonzero(s).len() <= s.len(),
        forall|i: int|
            #![trigger ranked_nonzero(s)[i]]
            0 <= i < ranked_nonzero(s).len() ==> ranked_nonzero(s)[i] == s[s.len() - 1 - i] && s[s.len()
                - 1 - i].stake > 0,
        ranked_nonzero(s).len() < s.len() ==> s[s.len() - 1 - ranked_nonzero(s).len()].stake == 0,
    decreases s.len(),
{
    if s.len() > 0 && s.last().stake != 0 {
        lemma_ranked_nonzero(s.drop_last());
        let rn = ranked_nonzero(s);
        let rp = ranked_nonzero(s.drop_last());
        assert forall|i: int| #![trigger rn[i]] 0 <= i < rn.len() implies rn[i] == s[s.len() - 1
            - i] && s[s.len() - 1 - i].stake > 0 by {
            if i > 0 {
                assert(rn[i] == rp[i - 1]);
                assert(s.drop_last()[s.len() - 1 - i] == s[s.len() - 1 - i]);
            }
        }
        if rn.len() < s.len() {
            assert(s.drop_last()[s.len() - 1 - rn.len()] == s[s.len() - 1 - rn.len()]);
        }
    }
}

/// Some line of `entries` backs `who`.
pub open spec fn entry_backs(entries: Seq<Entry>, who: u64) -> bool {
    exists|i: int| 0 <= i < entries.len() && entries[i].who == who
}

/// Whether some line of `entries` at or after `from` backs `who`.
fn backs_from(entries: &Vec<Entry>, from: usize, who: u64) -> (r: bool)
    requires
        from <= entries@.len(),
    ensures
        r == entry_backs(entries@.skip(from as int), who),
{
    let mut j: usize = from;
    while j < entries.len()
        invariant
            from <= j <= entries@.len(),
            forall|t: int| from <= t < j ==> entries@[t].who != who,
        decreases entries@.len() - j,
    {
        if entries[j].who == who {
            proof {
                assert(entries@.skip(from as int)[j - from].who == who);
            }
            return true;
        }
        j += 1;
    }
    proof {
        if entry_backs(entries@.skip(from as int), who) {
            let t = choose|t: int|
                0 <= t < entries@.skip(from as int).len() && entries@.skip(from as int)[t].who
                    == who;
            assert(entries@[from + t].who == who);
        }
    }
    false
}

/// The highest occupied slot index; -1 when every slot is a hole.
pub open spec fn last_occupied(s: Seq<Option<Candidate>>) -> int
    decreases s.len(),
{
    if s.len() == 0 {
        -1int
    } else if s.last() is Some {
        s.len() - 1
    } else {
        last_occupied(s.drop_last())
    }
}

/// `last_occupied` is the last occupied index, with only holes above it.
pub proof fn lemma_last_occupied(s: Seq<Option<Candidate>>)
    ensures
        -1 <= last_occupied(s) < s.len(),
        last_occupied(s) >= 0 ==> s[last_occupied(s)] is Some,
        forall|i: int| last_occupied(s) < i < s.len() ==> s[i] is None,
    decreases s.len(),
{
    if s.len() > 0 && s.last() is None {
        lemma_last_occupied(s.drop_last());
        assert forall|i: int| last_occupied(s) < i < s.len() implies s[i] is None by {
            if i < s.len() - 1 {
                assert(s.drop_last()[i] == s[i]);
            }
        }
    }
}

/// The bond returned to the first `k` winners, account by account: each
/// winner's grant is the candidacy bond, less any part lost to saturation.
pub open spec fn refund_granted_upto(l: StakeLedger, winners: Seq<Entry>, bond: u64, k: int) -> int
    decreases k,
{
    if k <= 0 {
        0int
    } else {
        refund_granted_upto(l, winners, bond, k - 1) + (crate::ledger::sat_add_u64(
            l.balance_of(winners[k - 1].who),
            bond,
        ) - l.balance_of(winners[k - 1].who))
    }
}

/// How a ledger changes when each of `winners` (no account twice) is
/// granted the candidacy bond back.
pub open spec fn refund_rel(
    pre_l: StakeLedger,
    post_l: StakeLedger,
    winners: Seq<Entry>,
    bond: u64,
) -> bool {
    &&& forall|w: u64|
        !entry_backs(winners, w) ==> post_l.balance_of(w) == pre_l.balance_of(w)
    &&& forall|w: u64|
        entry_backs(winners, w) ==> post_l.balance_of(w) == crate::ledger::sat_add_u64(
            pre_l.balance_of(w),
            bond,
        )
    &&& forall|w: u64| post_l.reserved_of(w) == pre_l.reserved_of(w)
    &&& post_l.total_stake == pre_l.total_stake
    &&& post_l.sum() == pre_l.sum() + refund_granted_upto(pre_l, winners, bond, winners.len() as int)
}

/// The candidate registry after a tally: runners-up keep their exact slot
/// and registration index, every other slot is cleared, and trailing holes
/// (when any slot is still occupied) are cut off.
pub open spec fn rebuilt_candidates(s: Seq<Option<Candidate>>, runners: Seq<Entry>) -> Seq<
    Option<Candidate>,
> {
    let keep = Seq::new(
        s.len(),
        |i: int|
            if s[i] is Some && entry_backs(runners, s[i]->0.who) {
                s[i]
            } else {
                None
            },
    );
    if last_occupied(keep) >= 0 {
        keep.take(last_occupied(keep) + 1)
    } else {
        keep
    }
}

/// The first council position held by `who`; -1 when `who` holds no seat.
pub open spec fn council_pos(c: Seq<Seat>, who: u64) -> int
    decreases c.len(),
{
    if c.len() == 0 {
        -1int
    } else if c[0].who == who {
        0int
    } else {
        let p = council_pos(c.drop_first(), who);
        if p < 0 {
            -1int
        } else {
            1 + p
        }
    }
}

/// `council_pos` is the first matching index, and -1 exactly when none
/// matches.
pub proof fn lemma_council_pos(c: Seq<Seat>, who: u64)
    ensures
        council_pos(c, who) == -1 ==> forall|k: int| 0 <= k < c.len() ==> c[k].who != who,
        council_pos(c, who) >= 0 ==> council_pos(c, who) < c.len() && c[council_pos(c, who)].who
            == who && forall|k: int| 0 <= k < council_pos(c, who) ==> c[k].who != who,
    decreases c.len(),
{
    if c.len() > 0 && c[0].who != who {
        lemma_council_pos(c.drop_first(), who);
        let p = council_pos(c.drop_first(), who);
        if p >= 0 {
            assert(c.drop_first()[p] == c[p + 1]);
            assert forall|k: int| 0 <= k < p + 1 implies c[k].who != who by {
                if k > 0 {
                    assert(c.drop_first()[k - 1] == c[k]);
                }
            }
        } else {
            assert forall|k: int| 0 <= k < c.len() implies c[k].who != who by {
                if k > 0 {
                    assert(c.drop_first()[k - 1] == c[k]);
                }
            }
        }
    }
}

/// The slot `who` is registered in; meaningful only for a registered `who`
/// in a duplicate-free slot sequence.
pub open spec fn reg_slot(s: Seq<Option<Candidate>>, who: u64) -> int {
    choose|i: int| 0 <= i < s.len() && s[i] is Some && s[i]->0.who == who
}

/// The election index `who` registered at.
pub open spec fn reg_since(s: Seq<Option<Candidate>>, who: u64) -> u32 {
    s[reg_slot(s, who)]->0.since
}

/// In a duplicate-free slot sequence the occupied slot of an account is
/// unique, so `reg_slot` finds exactly it.
pub proof fn lemma_reg_slot(s: Seq<Option<Candidate>>, i: int)
    requires
        candidates_distinct(s),
        0 <= i < s.len(),
        s[i] is Some,
    ensures
        reg_slot(s, s[i]->0.who) == i,
        reg_since(s, s[i]->0.who) == s[i]->0.since,
{
    let who = s[i]->0.who;
    assert(0 <= i < s.len() && s[i] is Some && s[i]->0.who == who);
    let k = reg_slot(s, who);
    assert(0 <= k < s.len() && s[k] is Some && s[k]->0.who == who);
}

/// One voter's contribution to a candidate's tally: their snapshotted stake,
/// when they confirmed approvals no earlier than the candidate's
/// registration and their vector marks the candidate's slot.
pub open spec fn stake_contrib(v: Voter, stake: u64, since: u32, slot: int) -> int {
    if v.last_active >= since && 0 <= slot < v.approvals@.len() && v.approvals@[slot] {
        stake as int
    } else {
        0int
    }
}

/// Sum of the first `k` voters' contributions.
pub open spec fn approval_stake_upto(
    voters: Seq<Voter>,
    stakes: Seq<u64>,
    since: u32,
    slot: int,
    k: int,
) -> int
    decreases k,
{
    if k <= 0 {
        0int
    } else {
        approval_stake_upto(voters, stakes, since, slot, k - 1) + stake_contrib(
            voters[k - 1],
            stakes[k - 1],
            since,
            slot,
        )
    }
}

/// The tally a presentation must claim exactly: the summed snapshot stake of
/// every voter whose approvals back the candidate and are not stale.
pub open spec fn approval_stake(
    voters: Seq<Voter>,
    stakes: Seq<u64>,
    since: u32,
    slot: int,
) -> int {
    approval_stake_upto(voters, stakes, since, slot, voters.len() as int)
}

/// No two claimed leaderboard lines back the same account.
pub open spec fn entries_distinct(s: Seq<Entry>) -> bool {
    forall|i: int, j: int|
        0 <= i < j < s.len() && s[i].stake > 0 && s[j].stake > 0 ==> s[i].who != s[j].who
}

impl CouncilState {
    /// A presentation window is open.
    pub open spec fn presentation_active_spec(self) -> bool {
        self.next_finalise is Some
    }

    /// The structural invariant every operation preserves.
    pub open spec fn wf(self) -> bool {
        &&& self.voting_period >= 1
        &&& voters_distinct(self.voters@)
        &&& candidates_distinct(self.candidates@)
        &&& seats_sorted(self.active_council@)
        &&& match self.next_finalise {
            Some(_) => {
                &&& self.leaderboard@.len() >= 1
                &&& self.snapshoted_stakes@.len() == self.voters@.len()
                &&& entries_sorted(self.leaderboard@)
                &&& entries_distinct(self.leaderboard@)
                &&& forall|i: int|
                    0 <= i < self.leaderboard@.len() && self.leaderboard@[i].stake > 0
                        ==> is_candidate_in(self.candidates@, self.leaderboard@[i].who)
            },
            None => {
                &&& self.leaderboard@.len() == 0
                &&& self.snapshoted_stakes@.len() == 0
            },
        }
    }

    /// A fresh engine: the given parameters, no voters, candidates, seats or
    /// open window, at election index 0.
    pub fn new(
        candidacy_bond: u64,
        voting_bond: u64,
        present_slash_per_voter: u64,
        carry_count: u32,
        presentation_duration: u64,
        inactivity_grace_period: u32,
        voting_period: u64,
        term_duration: u64,
        desired_seats: u32,
    ) -> (r: CouncilState)
        requires
            voting_period >= 1,
        ensures
            r.wf(),
            r.candidacy_bond == candidacy_bond,
            r.voting_bond == voting_bond,
            r.present_slash_per_voter == present_slash_per_voter,
            r.carry_count == carry_count,
            r.presentation_duration == presentation_duration,
            r.inactivity_grace_period == inactivity_grace_period,
            r.voting_period == voting_period,
            r.term_duration == term_duration,
            r.desired_seats == desired_seats,
            r.active_council@.len() == 0,
            r.vote_index == 0,
            r.voters@.len() == 0,
            r.candidates@.len() == 0,
            !r.presentation_active_spec(),
    {
        CouncilState {
            candidacy_bond,
            voting_bond,
            present_slash_per_voter,
            carry_count,
            presentation_duration,
            inactivity_grace_period,
            voting_period,
            term_duration,
            desired_seats,
            active_council: Vec::new(),
            vote_index: 0,
            voters: Vec::new(),
            candidates: Vec::new(),
            next_finalise: None,
            snapshoted_stakes: Vec::new(),
            leaderboard: Vec::new(),
        }
    }

    /// True while a presentation window is open.
    pub fn presentation_active(&self) -> (r: bool)
        ensures
            r == self.presentation_active_spec(),
    {
        match &self.next_finalise {
            Some(_) => true,
            None => false,
        }
    }

    /// Whether `who` currently occupies a candidate slot.
    pub fn is_a_candidate(&self, who: u64) -> (r: bool)
        ensures
            r == is_candidate_in(self.candidates@, who),
    {
        let mut k: usize = 0;
        while k < self.candidates.len()
            invariant
                k <= self.candidates@.len(),
                forall|j: int|
                    #![trigger self.candidates@[j]]
                    0 <= j < k ==> !(self.candidates@[j] is Some && self.candidates@[j]->0.who
                        == who),
            decreases self.candidates@.len() - k,
        {
            match &self.candidates[k] {
                Some(c) => {
                    if c.who == who {
                        return true;
                    }
                },
                None => {},
            }
            k += 1;
        }
        false
    }

    /// The first election boundary at or after block `n`.
    pub open spec fn next_vote_from_spec(self, n: u64) -> int {
        ((n + self.voting_period - 1) / (self.voting_period as int)) * (self.voting_period as int)
    }

    /// Round `n` up to the next multiple of the voting period.
    pub fn next_vote_from(&self, n: u64) -> (r: u64)
        requires
            self.wf(),
            n + self.voting_period - 1 <= u64::MAX,
        ensures
            r == self.next_vote_from_spec(n),
    {
        let p = self.voting_period;
        let t = if n == 0 {
            p - 1
        } else {
            (n - 1) + p
        };
        proof {
            assert((t as int / p as int) * (p as int) <= t as int) by (nonlinear_arith)
                requires
                    p >= 1 && t >= 0,
            ;
        }
        t / p * p
    }

    /// The seat count and incoming-seat count that scheduling reasons over:
    /// `(next possible tally block, seats after the in-flight window, seats
    /// the in-flight window brings in)`.
    pub open spec fn tally_base(self, now: u64) -> (int, int, int) {
        match self.next_finalise {
            Some(w) => (
                w.finalise_at as int,
                (if self.active_council@.len() >= w.expiring@.len() {
                    self.active_council@.len() - w.expiring@.len()
                } else {
                    0int
                }) + w.seats,
                w.seats as int,
            ),
            None => (now as int, self.active_council@.len() as int, 0int),
        }
    }

    /// The block at which the next election's tally must start, before
    /// rounding up to a voting-period boundary.
    pub open spec fn next_tally_target(self, now: u64) -> int {
        let base = self.tally_base(now);
        if base.1 < self.desired_seats {
            base.0
        } else if self.desired_seats <= base.2 {
            base.0 + self.term_duration
        } else {
            self.active_council@[self.active_council@.len() - (self.desired_seats
                - base.2)].expiry as int
        }
    }

    /// When the next tally happens: `None` exactly when no seats are desired,
    /// otherwise the scheduling target rounded up to a period boundary.
    pub open spec fn next_tally_spec(self, now: u64) -> Option<int> {
        if self.desired_seats == 0 {
            None
        } else {
            Some(
                ((self.next_tally_target(now) + self.voting_period - 1) / (
                self.voting_period as int)) * (self.voting_period as int),
            )
        }
    }

    /// The block arithmetic of scheduling stays within `u64`.
    pub open spec fn next_tally_in_bounds(self, now: u64) -> bool {
        &&& now + self.voting_period <= u64::MAX
        &&& (self.next_finalise matches Some(w) ==> w.finalise_at + self.term_duration
            + self.voting_period <= u64::MAX)
        &&& forall|i: int|
            0 <= i < self.active_council@.len() ==> self.active_council@[i].expiry
                + self.voting_period <= u64::MAX
    }

    /// The block on which the tally for the next election will happen;
    /// `None` only if the desired seat count is zero.
    pub fn next_tally(&self, now: u64) -> (r: Option<u64>)
        requires
            self.wf(),
            self.next_tally_in_bounds(now),
        ensures
            match r {
                Some(b) => self.next_tally_spec(now) == Some(b as int),
                None => self.next_tally_spec(now) is None,
            },
    {
        if self.desired_seats == 0 {
            return None;
        }
        let clen: u64 = self.active_council.len() as u64;
        let (next_possible, count, coming): (u64, u128, u32) = match &self.next_finalise {
            Some(w) => {
                let elen: u64 = w.expiring.len() as u64;
                let kept: u64 = if clen >= elen {
                    clen - elen
                } else {
                    0
                };
                (w.finalise_at, kept as u128 + w.seats as u128, w.seats)
            },
            None => (now, clen as u128, 0u32),
        };
        let target: u64 = if count < self.desired_seats as u128 {
            next_possible
        } else if self.desired_seats <= coming {
            next_possible + self.term_duration
        } else {
            let back: u64 = (self.desired_seats - coming) as u64;
            self.active_council[(clen - back) as usize].expiry
        };
        Some(self.next_vote_from(target))
    }

    /// Set the number of seats the council should have. Takes effect at the
    /// next scheduling decision.
    pub fn set_desired_seats(&mut self, count: u32)
        requires
            old(self).wf(),
        ensures
            final(self).wf(),
            *final(self) == (CouncilState { desired_seats: count, ..*old(self) }),
    {
        self.desired_seats = count;
    }

    /// Set how long a presentation window stays open.
    pub fn set_presentation_duration(&mut self, count: u64)
        requires
            old(self).wf(),
        ensures
            final(self).wf(),
            *final(self) == (CouncilState { presentation_duration: count, ..*old(self) }),
    {
        self.presentation_duration = count;
    }

    /// Set how long an elected seat lasts.
    pub fn set_term_duration(&mut self, count: u64)
        requires
            old(self).wf(),
        ensures
            final(self).wf(),
            *final(self) == (CouncilState { term_duration: count, ..*old(self) }),
    {
        self.term_duration = count;
    }

    /// What `start_tally` does: if the seats left after the expiring prefix
    /// fall short of the desired count, a presentation window opens for the
    /// shortfall, voter stakes are snapshotted, and a zeroed leaderboard of
    /// shortfall-plus-carry lines is laid out; otherwise nothing changes.
    pub open spec fn start_tally_rel(
        pre: CouncilState,
        l: StakeLedger,
        now: u64,
        post: CouncilState,
    ) -> bool {
        let ex = expiring_prefix(pre.active_council@, now);
        if pre.active_council@.len() - ex < pre.desired_seats {
            let shortfall = pre.desired_seats - (pre.active_council@.len() - ex);
            &&& post.next_finalise is Some
            &&& post.next_finalise->0.finalise_at == now + pre.presentation_duration
            &&& post.next_finalise->0.seats == shortfall
            &&& post.next_finalise->0.expiring@ == Seq::new(
                ex as nat,
                |i: int| pre.active_council@[i].who,
            )
            &&& post.snapshoted_stakes@ == Seq::new(
                pre.voters@.len(),
                |i: int| l.balance_of(pre.voters@[i].who),
            )
            &&& post.leaderboard@ == Seq::new(
                (shortfall + pre.carry_count) as nat,
                |i: int| Entry { stake: 0u64, who: 0u64 },
            )
            &&& post == (CouncilState {
                next_finalise: post.next_finalise,
                snapshoted_stakes: post.snapshoted_stakes,
                leaderboard: post.leaderboard,
                ..pre
            })
        } else {
            post == pre
        }
    }

    /// Close the vote: identify the seats expiring at `now`, and when they
    /// leave the council short, open a presentation window sized for the
    /// shortfall, snapshotting every voter's stake.
    pub fn start_tally(&mut self, l: &StakeLedger, now: u64)
        requires
            old(self).wf(),
            l.wf(),
            now + old(self).presentation_duration <= u64::MAX,
            old(self).desired_seats + old(self).carry_count <= usize::MAX,
        ensures
            final(self).wf(),
            CouncilState::start_tally_rel(*old(self), *l, now, *final(self)),
    {
        proof {
            lemma_expiring_prefix(self.active_council@, now);
        }
        let mut ex: usize = 0;
        while ex < self.active_council.len() && self.active_council[ex].expiry == now
            invariant
                ex <= self.active_council@.len(),
                forall|i: int| 0 <= i < ex ==> self.active_council@[i].expiry == now,
            decreases self.active_council@.len() - ex,
        {
            ex += 1;
        }
        proof {
            let p = expiring_prefix(self.active_council@, now);
            assert(ex == p) by {
                if ex < p {
                    assert(self.active_council@[ex as int].expiry == now);
                }
                if p < ex {
                    assert(self.active_council@[p].expiry == now);
                }
            }
        }
        let kept = self.active_council.len() - ex;
        if kept >= self.desired_seats as usize {
            return ;
        }
        let shortfall: u32 = self.desired_seats - kept as u32;
        let mut expiring: Vec<u64> = Vec::new();
        let mut i: usize = 0;
        while i < ex
            invariant
                ex <= self.active_council@.len(),
                i <= ex,
                expiring@.len() == i,
                forall|j: int| 0 <= j < i ==> expiring@[j] == self.active_council@[j].who,
            decreases ex - i,
        {
            expiring.push(self.active_council[i].who);
            i += 1;
        }
        let mut snap: Vec<u64> = Vec::new();
        let mut k: usize = 0;
        while k < self.voters.len()
            invariant
                l.wf(),
                k <= self.voters@.len(),
                snap@.len() == k,
                forall|j: int| 0 <= j < k ==> snap@[j] == l.balance_of(self.voters@[j].who),
            decreases self.voters@.len() - k,
        {
            snap.push(l.balance(self.voters[k].who));
            k += 1;
        }
        let size: usize = shortfall as usize + self.carry_count as usize;
        let mut lb: Vec<Entry> = Vec::new();
        let mut t: usize = 0;
        while t < size
            invariant
                t <= size,
                lb@.len() == t,
                forall|j: int| 0 <= j < t ==> lb@[j] == (Entry { stake: 0u64, who: 0u64 }),
            decreases size - t,
        {
            lb.push(Entry { stake: 0, who: 0 });
            t += 1;
        }
        self.next_finalise = Some(
            TallyWindow {
                finalise_at: now + self.presentation_duration,
                seats: shortfall,
                expiring,
            },
        );
        self.snapshoted_stakes = snap;
        self.leaderboard = lb;
        proof {
            assert(self.next_finalise->0.expiring@ =~= Seq::new(
                expiring_prefix(old(self).active_council@, now) as nat,
                |i: int| old(self).active_council@[i].who,
            ));
            assert(self.snapshoted_stakes@ =~= Seq::new(
                old(self).voters@.len(),
                |i: int| l.balance_of(old(self).voters@[i].who),
            ));
            assert(self.leaderboard@ =~= Seq::new(
                (shortfall + old(self).carry_count) as nat,
                |i: int| Entry { stake: 0u64, who: 0u64 },
            ));
        }
    }

    /// The winners of the closing window: the best verified lines from the
    /// leaderboard's top, at most as many as there are seats to fill.
    pub open spec fn finalise_winners(self) -> Seq<Entry> {
        let ranked = ranked_nonzero(self.leaderboard@);
        let coming = self.next_finalise->0.seats as int;
        if ranked.len() <= coming {
            ranked
        } else {
            ranked.take(coming)
        }
    }

    /// The runners-up of the closing window: the verified lines below the
    /// winners, who stay registered as candidates.
    pub open spec fn finalise_runners(self) -> Seq<Entry> {
        let ranked = ranked_nonzero(self.leaderboard@);
        let coming = self.next_finalise->0.seats as int;
        if ranked.len() <= coming {
            Seq::empty()
        } else {
            ranked.skip(coming)
        }
    }

    /// What `finalise_tally` does: winners get the candidacy bond back and
    /// seats expiring at `now + term_duration`, spliced into the surviving
    /// council in expiry order (after equal expiries); runners-up alone stay
    /// in the candidate registry; the window closes and the election index
    /// advances.
    pub open spec fn finalise_rel(
        pre: CouncilState,
        pre_l: StakeLedger,
        now: u64,
        post: CouncilState,
        post_l: StakeLedger,
    ) -> bool {
        let winners = pre.finalise_winners();
        let new_expiry = (now + pre.term_duration) as u64;
        let exn = if pre.next_finalise->0.expiring@.len() <= pre.active_council@.len() {
            pre.next_finalise->0.expiring@.len() as int
        } else {
            pre.active_council@.len() as int
        };
        let remaining = pre.active_council@.skip(exn);
        let k = leq_prefix(remaining, new_expiry);
        let incoming = Seq::new(
            winners.len(),
            |i: int| Seat { who: winners[i].who, expiry: new_expiry },
        );
        &&& post.active_council@ == remaining.take(k) + incoming + remaining.skip(k)
        &&& post.vote_index == pre.vote_index + 1
        &&& post.next_finalise is None
        &&& post.snapshoted_stakes@.len() == 0
        &&& post.leaderboard@.len() == 0
        &&& post.candidates@ == rebuilt_candidates(pre.candidates@, pre.finalise_runners())
        &&& post == (CouncilState {
            active_council: post.active_council,
            vote_index: post.vote_index,
            candidates: post.candidates,
            next_finalise: post.next_finalise,
            snapshoted_stakes: post.snapshoted_stakes,
            leaderboard: post.leaderboard,
            ..pre
        })
        &&& refund_rel(pre_l, post_l, winners, pre.candidacy_bond)
    }

    /// Close the presentation window: elect the leaderboard's top into the
    /// expiring seats, refund their candidacy bonds, keep runners-up as
    /// candidates, clear everything else, and advance the election index.
    #[verifier::rlimit(100)]
    pub fn finalise_tally(&mut self, l: &mut StakeLedger, now: u64)
        requires
            old(self).wf(),
            old(l).wf(),
            old(self).next_finalise is Some,
            now + old(self).term_duration <= u64::MAX,
            old(self).vote_index < u32::MAX,
            old(l).accounts@.len() + old(self).leaderboard@.len() < usize::MAX,
        ensures
            final(self).wf(),
            final(l).wf(),
            final(l).accounts@.len() <= old(l).accounts@.len() + old(self).leaderboard@.len(),
            CouncilState::finalise_rel(*old(self), *old(l), now, *final(self), *final(l)),
    {
        let (coming, exn): (u32, usize) = match &self.next_finalise {
            Some(w) => (
                w.seats,
                if w.expiring.len() <= self.active_council.len() {
                    w.expiring.len()
                } else {
                    self.active_council.len()
                },
            ),
            None => {
                proof {
                    assert(false);
                }
                (0, 0)
            },
        };
        let ghost lbv = self.leaderboard@;
        proof {
            lemma_ranked_nonzero(lbv);
        }
        // The claimed suffix of the leaderboard, best line first.
        let mut ranked: Vec<Entry> = Vec::new();
        let mut t: usize = self.leaderboard.len();
        while t > 0 && self.leaderboard[t - 1].stake != 0
            invariant
                self.leaderboard@ == lbv,
                t <= lbv.len(),
                ranked@.len() == lbv.len() - t,
                forall|i: int|
                    0 <= i < ranked@.len() ==> ranked@[i] == lbv[lbv.len() - 1 - i] && lbv[lbv.len()
                        - 1 - i].stake > 0,
            decreases t,
        {
            ranked.push(self.leaderboard[t - 1]);
            t -= 1;
        }
        proof {
            let rn = ranked_nonzero(lbv);
            assert(ranked@.len() == rn.len()) by {
                if rn.len() < ranked@.len() {
                    assert(lbv[lbv.len() - 1 - rn.len()].stake == 0);
                    assert(ranked@[rn.len() as int] == lbv[lbv.len() - 1 - rn.len()]);
                }
                if ranked@.len() < rn.len() {
                    assert(rn[ranked@.len() as int] == lbv[lbv.len() - 1 - ranked@.len()]);
                    assert(t > 0 && lbv[t - 1].stake == 0);
                }
            }
            assert(ranked@ =~= rn);
        }
        let coming_n: usize = if (coming as usize) <= ranked.len() {
            coming as usize
        } else {
            ranked.len()
        };
        let ghost winners = old(self).finalise_winners();
        proof {
            assert(winners =~= ranked@.subrange(0, coming_n as int));
            assert forall|a: int, b: int|
                0 <= a < b < winners.len() implies winners[a].who != winners[b].who by {
                assert(winners[a] == lbv[lbv.len() - 1 - a]);
                assert(winners[b] == lbv[lbv.len() - 1 - b]);
            }
        }
        // Return the candidacy bond to each winner.
        let bond = self.candidacy_bond;
        let mut i: usize = 0;
        while i < coming_n
            invariant
                l.wf(),
                coming_n <= ranked@.len(),
                winners == ranked@.subrange(0, coming_n as int),
                forall|a: int, b: int|
                    0 <= a < b < winners.len() ==> winners[a].who != winners[b].who,
                i <= coming_n,
                bond == old(self).candidacy_bond,
                l.accounts@.len() <= old(l).accounts@.len() + i,
                old(l).accounts@.len() + old(self).leaderboard@.len() < usize::MAX,
                coming_n <= old(self).leaderboard@.len(),
                forall|w: u64|
                    !entry_backs(winners.subrange(0, i as int), w) ==> l.balance_of(w) == old(
                        l,
                    ).balance_of(w),
                forall|w: u64|
                    entry_backs(winners.subrange(0, i as int), w) ==> l.balance_of(w)
                        == crate::ledger::sat_add_u64(old(l).balance_of(w), bond),
                forall|w: u64| l.reserved_of(w) == old(l).reserved_of(w),
                l.total_stake == old(l).total_stake,
                l.sum() == old(l).sum() + refund_granted_upto(*old(l), winners, bond, i as int),
            decreases coming_n - i,
        {
            let who = ranked[i].who;
            proof {
                assert(!entry_backs(winners.subrange(0, i as int), who)) by {
                    if entry_backs(winners.subrange(0, i as int), who) {
                        let a = choose|a: int|
                            #![trigger winners.subrange(0, i as int)[a]]
                            0 <= a < i && winners.subrange(0, i as int)[a].who == who;
                        assert(winners[a].who == winners[i as int].who);
                    }
                }
            }
            l.refund(who, bond);
            proof {
                assert(winners.subrange(0, i + 1) =~= winners.subrange(0, i as int).push(
                    winners[i as int],
                ));
                assert forall|w: u64|
                    #![trigger entry_backs(winners.subrange(0, i + 1), w)]
                    entry_backs(winners.subrange(0, i + 1), w) implies l.balance_of(w)
                    == crate::ledger::sat_add_u64(old(l).balance_of(w), bond) by {
                    let a = choose|a: int|
                        #![trigger winners.subrange(0, i + 1)[a]]
                        0 <= a < i + 1 && winners.subrange(0, i + 1)[a].who == w;
                    if a < i {
                        assert(entry_backs(winners.subrange(0, i as int), w)) by {
                            assert(winners.subrange(0, i as int)[a].who == w);
                        }
                        assert(w != who);
                    }
                }
                assert forall|w: u64|
                    #![trigger entry_backs(winners.subrange(0, i + 1), w)]
                    !entry_backs(winners.subrange(0, i + 1), w) implies l.balance_of(w) == old(
                    l,
                ).balance_of(w) by {
                    assert(winners.subrange(0, i + 1)[i as int].who == winners[i as int].who);
                    assert(w != who);
                    assert(!entry_backs(winners.subrange(0, i as int), w)) by {
                        if entry_backs(winners.subrange(0, i as int), w) {
                            let a = choose|a: int|
                                #![trigger winners.subrange(0, i as int)[a]]
                                0 <= a < i && winners.subrange(0, i as int)[a].who == w;
                            assert(winners.subrange(0, i + 1)[a].who == w);
                        }
                    }
                }
            }
            i += 1;
        }
        proof {
            assert(winners.subrange(0, winners.len() as int) =~= winners);
        }
        // Splice the winners' new seats into the surviving council.
        let new_expiry = now + self.term_duration;
        let ghost remaining = self.active_council@.skip(exn as int);
        proof {
            assert(seats_sorted(remaining)) by {
                assert forall|a: int, b: int|
                    0 <= a <= b < remaining.len() implies remaining[a].expiry
                    <= remaining[b].expiry by {
                    assert(remaining[a] == self.active_council@[exn + a]);
                    assert(remaining[b] == self.active_council@[exn + b]);
                }
            }
            lemma_leq_prefix(remaining, new_expiry);
        }
        let mut nc: Vec<Seat> = Vec::new();
        let mut idx: usize = exn;
        while idx < self.active_council.len() && self.active_council[idx].expiry <= new_expiry
            invariant
                exn <= idx <= self.active_council@.len(),
                remaining == self.active_council@.skip(exn as int),
                nc@.len() == idx - exn,
                forall|j: int| 0 <= j < nc@.len() ==> nc@[j] == remaining[j],
                forall|j: int| 0 <= j < nc@.len() ==> remaining[j].expiry <= new_expiry,
            decreases self.active_council@.len() - idx,
        {
            proof {
                assert(remaining[idx - exn] == self.active_council@[idx as int]);
            }
            nc.push(self.active_council[idx]);
            idx += 1;
        }
        let ghost k = leq_prefix(remaining, new_expiry);
        proof {
            assert(idx - exn == k) by {
                if idx - exn < k {
                    assert(remaining[idx - exn].expiry <= new_expiry);
                    assert(remaining[idx - exn] == self.active_council@[idx as int]);
                }
                if k < idx - exn {
                    assert(remaining[k].expiry > new_expiry);
                }
            }
            assert(nc@ =~= remaining.take(k));
        }
        let mut wi: usize = 0;
        while wi < coming_n
            invariant
                coming_n <= ranked@.len(),
                ranked@.len() <= old(self).leaderboard@.len(),
                winners == ranked@.subrange(0, coming_n as int),
                wi <= coming_n,
                0 <= k <= remaining.len(),
                nc@.len() == k + wi,
                forall|j: int| 0 <= j < k ==> nc@[j] == remaining[j],
                forall|j: int|
                    0 <= j < wi ==> nc@[k + j] == (Seat {
                        who: winners[j].who,
                        expiry: new_expiry,
                    }),
            decreases coming_n - wi,
        {
            nc.push(Seat { who: ranked[wi].who, expiry: new_expiry });
            wi += 1;
        }
        let mut idx2: usize = idx;
        while idx2 < self.active_council.len()
            invariant
                coming_n <= ranked@.len(),
                winners == ranked@.subrange(0, coming_n as int),
                exn <= idx <= idx2 <= self.active_council@.len(),
                remaining == self.active_council@.skip(exn as int),
                k == idx - exn,
                nc@.len() == k + coming_n + (idx2 - idx),
                forall|j: int| 0 <= j < k ==> nc@[j] == remaining[j],
                forall|j: int|
                    0 <= j < coming_n ==> nc@[k + j] == (Seat {
                        who: winners[j].who,
                        expiry: new_expiry,
                    }),
                forall|j: int|
                    idx <= j < idx2 ==> nc@[k + coming_n + (j - idx)] == self.active_council@[j],
            decreases self.active_council@.len() - idx2,
        {
            nc.push(self.active_council[idx2]);
            idx2 += 1;
        }
        let ghost incoming = Seq::new(
            winners.len(),
            |j: int| Seat { who: winners[j].who, expiry: new_expiry },
        );
        proof {
            assert forall|j: int|
                k + coming_n <= j < nc@.len() implies nc@[j] == remaining[j - coming_n] by {
                let jj = j - k - coming_n + idx;
                assert(nc@[j] == self.active_council@[jj]);
                assert(remaining[jj - exn] == self.active_council@[jj]);
            }
            assert(nc@ =~= remaining.take(k) + incoming + remaining.skip(k));
        }
        // Rebuild the candidate registry: runners-up keep their slots.
        let ghost runners = old(self).finalise_runners();
        proof {
            assert(runners =~= ranked@.skip(coming_n as int));
        }
        let mut keep: Vec<Option<Candidate>> = Vec::new();
        let mut s: usize = 0;
        while s < self.candidates.len()
            invariant
                runners == ranked@.skip(coming_n as int),
                coming_n <= ranked@.len(),
                s <= self.candidates@.len(),
                keep@.len() == s,
                forall|j: int|
                    #![trigger keep@[j]]
                    0 <= j < s ==> keep@[j] == (if self.candidates@[j] is Some && entry_backs(
                        runners,
                        self.candidates@[j]->0.who,
                    ) {
                        self.candidates@[j]
                    } else {
                        None
                    }),
            decreases self.candidates@.len() - s,
        {
            let retain = match &self.candidates[s] {
                Some(c) => backs_from(&ranked, coming_n, c.who),
                None => false,
            };
            if retain {
                let slot_val = self.candidates[s];
                keep.push(slot_val);
            } else {
                keep.push(None);
            }
            s += 1;
        }
        let ghost spec_keep = Seq::new(
            old(self).candidates@.len(),
            |j: int|
                if old(self).candidates@[j] is Some && entry_backs(
                    runners,
                    old(self).candidates@[j]->0.who,
                ) {
                    old(self).candidates@[j]
                } else {
                    None
                },
        );
        proof {
            assert(keep@ =~= spec_keep);
            lemma_last_occupied(keep@);
        }
        let mut last: usize = keep.len();
        while last > 0 && keep[last - 1].is_none()
            invariant
                last <= keep@.len(),
                forall|j: int| last <= j < keep@.len() ==> keep@[j] is None,
            decreases last,
        {
            last -= 1;
        }
        proof {
            assert(last == last_occupied(keep@) + 1) by {
                let lo = last_occupied(keep@);
                if last <= lo {
                    assert(keep@[lo] is None);
                }
                if lo + 1 < last {
                    assert(keep@[last - 1] is None);
                }
            }
        }
        if last > 0 {
            keep.truncate(last);
        }
        // Commit the new registers and close the window.
        proof {
            assert(keep@ =~= rebuilt_candidates(old(self).candidates@, runners));
        }
        self.active_council = nc;
        self.candidates = keep;
        self.vote_index = self.vote_index + 1;
        self.next_finalise = None;
        self.snapshoted_stakes = Vec::new();
        self.leaderboard = Vec::new();
        proof {
            self.lemma_finalise_wf(*old(self), remaining, k, incoming, new_expiry);
        }
    }

    /// The spliced council and cleared registers of a finalised tally keep
    /// the structural invariant.
    proof fn lemma_finalise_wf(
        self,
        pre: CouncilState,
        remaining: Seq<Seat>,
        k: int,
        incoming: Seq<Seat>,
        new_expiry: u64,
    )
        requires
            pre.wf(),
            0 <= k <= remaining.len(),
            seats_sorted(remaining),
            forall|j: int| 0 <= j < k ==> remaining[j].expiry <= new_expiry,
            k < remaining.len() ==> remaining[k].expiry > new_expiry,
            forall|j: int| 0 <= j < incoming.len() ==> incoming[j].expiry == new_expiry,
            self.active_council@ == remaining.take(k) + incoming + remaining.skip(k),
            self.voters@ == pre.voters@,
            self.candidates@.len() <= pre.candidates@.len(),
            forall|j: int|
                #![trigger self.candidates@[j]]
                0 <= j < self.candidates@.len() ==> self.candidates@[j] is None
                    || self.candidates@[j] == pre.candidates@[j],
            self.next_finalise is None,
            self.snapshoted_stakes@.len() == 0,
            self.leaderboard@.len() == 0,
            self.voting_period == pre.voting_period,
        ensures
            self.wf(),
    {
        let c = self.active_council@;
        let m = incoming.len() as int;
        assert forall|a: int, b: int| 0 <= a <= b < c.len() implies c[a].expiry
            <= c[b].expiry by {
            let ea = if a < k {
                remaining[a].expiry
            } else if a < k + m {
                new_expiry
            } else {
                remaining[a - m].expiry
            };
            assert(c[a].expiry == ea);
            let eb = if b < k {
                remaining[b].expiry
            } else if b < k + m {
                new_expiry
            } else {
                remaining[b - m].expiry
            };
            assert(c[b].expiry == eb);
            if a >= k + m && b >= k + m {
                assert(remaining[a - m].expiry <= remaining[b - m].expiry);
            }
            if a < k && b >= k + m {
                assert(remaining[a].expiry <= new_expiry);
                assert(remaining[b - m].expiry > new_expiry);
            }
            if a >= k + m {
                assert(remaining[a - m].expiry > new_expiry) by {
                    assert(k <= a - m);
                    assert(remaining[k].expiry > new_expiry);
                }
            }
        }
        assert(candidates_distinct(self.candidates@)) by {
            assert forall|i: int, j: int|
                0 <= i < j < self.candidates@.len() && self.candidates@[i] is Some
                    && self.candidates@[j] is Some implies self.candidates@[i]->0.who
                != self.candidates@[j]->0.who by {
                assert(self.candidates@[i] == pre.candidates@[i]);
                assert(self.candidates@[j] == pre.candidates@[j]);
            }
        }
    }

    /// A tally is due at `now`: it is a period boundary and the scheduler
    /// puts the next tally exactly there.
    pub open spec fn tally_due(self, now: u64) -> bool {
        &&& now % self.voting_period == 0
        &&& self.next_tally_spec(now) == Some(now as int)
    }

    /// What the block-end hook does: run `start_tally` when a tally is due,
    /// then run `finalise_tally` when the (possibly just opened) window
    /// closes exactly at `now`.
    pub open spec fn end_block_phases(
        pre: CouncilState,
        pre_l: StakeLedger,
        now: u64,
        mid: CouncilState,
        post: CouncilState,
        post_l: StakeLedger,
    ) -> bool {
        &&& if pre.tally_due(now) {
            CouncilState::start_tally_rel(pre, pre_l, now, mid)
        } else {
            mid == pre
        }
        &&& if mid.next_finalise matches Some(w) && w.finalise_at == now {
            CouncilState::finalise_rel(mid, pre_l, now, post, post_l)
        } else {
            post == mid && post_l == pre_l
        }
    }

    pub open spec fn end_block_rel(
        pre: CouncilState,
        pre_l: StakeLedger,
        now: u64,
        post: CouncilState,
        post_l: StakeLedger,
    ) -> bool {
        exists|mid: CouncilState|
            #[trigger] CouncilState::end_block_phases(pre, pre_l, now, mid, post, post_l)
    }

    /// The block arithmetic of one block-end pass stays within bounds.
    pub open spec fn end_block_in_bounds(self, l: StakeLedger, now: u64) -> bool {
        &&& self.next_tally_in_bounds(now)
        &&& now + self.presentation_duration <= u64::MAX
        &&& now + self.term_duration <= u64::MAX
        &&& self.vote_index < u32::MAX
        &&& self.desired_seats + self.carry_count <= usize::MAX
        &&& l.accounts@.len() + self.leaderboard@.len() + self.desired_seats + self.carry_count
            < usize::MAX
    }

    /// The council's once-per-block hook: open a presentation window when a
    /// tally is due, and close the window that finalises at this block.
    pub fn end_block(&mut self, l: &mut StakeLedger, now: u64)
        requires
            old(self).wf(),
            old(l).wf(),
            old(self).end_block_in_bounds(*old(l), now),
        ensures
            final(self).wf(),
            final(l).wf(),
            final(l).accounts@.len() <= old(l).accounts@.len() + old(self).leaderboard@.len()
                + old(self).desired_seats + old(self).carry_count,
            CouncilState::end_block_rel(*old(self), *old(l), now, *final(self), *final(l)),
    {
        if now % self.voting_period == 0 {
            match self.next_tally(now) {
                Some(number) => {
                    if number == now {
                        self.start_tally(l, now);
                    }
                },
                None => {},
            }
        }
        let ghost mid = *self;
        proof {
            if old(self).tally_due(now) {
                assert(CouncilState::start_tally_rel(*old(self), *old(l), now, mid));
            } else {
                assert(mid == *old(self));
            }
            assert(*l == *old(l));
            let pre = *old(self);
            if pre.tally_due(now) {
                lemma_expiring_prefix(pre.active_council@, now);
                let ex = expiring_prefix(pre.active_council@, now);
                if pre.active_council@.len() - ex < pre.desired_seats {
                    assert(CouncilState::start_tally_rel(pre, *old(l), now, mid));
                    assert(mid.leaderboard@ == Seq::new(
                        ((pre.desired_seats - (pre.active_council@.len() - ex))
                            + pre.carry_count) as nat,
                        |i: int| Entry { stake: 0u64, who: 0u64 },
                    ));
                    assert(self.leaderboard@.len() == (pre.desired_seats - (
                    pre.active_council@.len() - ex)) + pre.carry_count);
                }
            }
            assert(l.accounts@.len() + self.leaderboard@.len() < usize::MAX);
        }
        let due = match &self.next_finalise {
            Some(w) => w.finalise_at == now,
            None => false,
        };
        if due {
            self.finalise_tally(l, now);
        }
        proof {
            assert(CouncilState::end_block_phases(*old(self), *old(l), now, mid, *self, *l));
            assert(CouncilState::end_block_rel(*old(self), *old(l), now, *self, *l));
        }
    }

    /// Position of `who` in the voter sequence, if registered.
    fn voter_position(&self, who: u64) -> (r: Option<usize>)
        ensures
            match r {
                Some(i) => i < self.voters@.len() && self.voters@[i as int].who == who,
                None => !is_voter_in(self.voters@, who),
            },
    {
        let mut k: usize = 0;
        while k < self.voters.len()
            invariant
                k <= self.voters@.len(),
                forall|j: int| 0 <= j < k ==> self.voters@[j].who != who,
            decreases self.voters@.len() - k,
        {
            if self.voters[k].who == who {
                return Some(k);
            }
            k += 1;
        }
        None
    }

    /// Why `set_approvals` would fail, if it would.
    pub open spec fn set_approvals_check(self, l: StakeLedger, who: u64, index: u32) -> Option<
        CouncilError,
    > {
        if self.presentation_active_spec() {
            Some(CouncilError::ApprovalPresentationActive)
        } else if index != self.vote_index {
            Some(CouncilError::ApprovalIndexNotCurrent)
        } else if !is_voter_in(self.voters@, who) && l.spendable_of(who) < self.voting_bond {
            Some(CouncilError::ApprovalBondUnaffordable)
        } else {
            None
        }
    }

    /// Set `who`'s candidate approvals for election `index`. A first-time
    /// voter reserves the voting bond and joins the voter sequence; a
    /// returning voter's vector and last-active index are overwritten in
    /// place. Fails, changing nothing, outside of those conditions.
    pub fn set_approvals(
        &mut self,
        l: &mut StakeLedger,
        who: u64,
        votes: Vec<bool>,
        index: u32,
    ) -> (r: Result<(), CouncilError>)
        requires
            old(self).wf(),
            old(l).wf(),
            old(l).accounts@.len() < usize::MAX,
            old(self).voters@.len() < usize::MAX,
        ensures
            final(self).wf(),
            final(l).wf(),
            final(l).accounts@.len() <= old(l).accounts@.len() + 1,
            match r {
                Err(e) => {
                    &&& Some(e) == old(self).set_approvals_check(*old(l), who, index)
                    &&& *final(self) == *old(self)
                    &&& *final(l) == *old(l)
                },
                Ok(_) => {
                    &&& old(self).set_approvals_check(*old(l), who, index) is None
                    &&& *final(self) == (CouncilState { voters: final(self).voters, ..*old(self) })
                    &&& if is_voter_in(old(self).voters@, who) {
                        &&& final(self).voters@.len() == old(self).voters@.len()
                        &&& forall|j: int|
                            0 <= j < old(self).voters@.len() && old(self).voters@[j].who != who
                                ==> final(self).voters@[j] == old(self).voters@[j]
                        &&& forall|j: int|
                            0 <= j < old(self).voters@.len() && old(self).voters@[j].who == who
                                ==> final(self).voters@[j] == (Voter {
                                who,
                                approvals: votes,
                                last_active: index,
                            })
                        &&& *final(l) == *old(l)
                    } else {
                        &&& final(self).voters@ == old(self).voters@.push(
                            Voter { who, approvals: votes, last_active: index },
                        )
                        &&& final(l).same_except(*old(l), who)
                        &&& final(l).balance_of(who) == old(l).balance_of(who)
                        &&& final(l).reserved_of(who) == old(l).reserved_of(who) + old(
                            self,
                        ).voting_bond
                        &&& final(l).sum() == old(l).sum()
                    }
                },
            },
    {
        if self.presentation_active() {
            return Err(CouncilError::ApprovalPresentationActive);
        }
        if index != self.vote_index {
            return Err(CouncilError::ApprovalIndexNotCurrent);
        }
        match self.voter_position(who) {
            Some(i) => {
                self.voters[i] = Voter { who, approvals: votes, last_active: index };
                Ok(())
            },
            None => {
                if !l.reserve(who, self.voting_bond) {
                    return Err(CouncilError::ApprovalBondUnaffordable);
                }
                self.voters.push(Voter { who, approvals: votes, last_active: index });
                Ok(())
            },
        }
    }

    /// Why `retract_voter` would fail, if it would.
    pub open spec fn retract_check(self, who: u64, index: u32) -> Option<CouncilError> {
        if self.presentation_active_spec() {
            Some(CouncilError::RetractPresentationActive)
        } else if !is_voter_in(self.voters@, who) {
            Some(CouncilError::RetractNotVoter)
        } else if index >= self.voters@.len() {
            Some(CouncilError::RetractIndexInvalid)
        } else if self.voters@[index as int].who != who {
            Some(CouncilError::RetractIndexMismatch)
        } else {
            None
        }
    }

    /// Remove `who` from the voter sequence — `index` must address their own
    /// slot — cancelling their approvals and returning the voting bond.
    pub fn retract_voter(&mut self, l: &mut StakeLedger, who: u64, index: u32) -> (r: Result<
        (),
        CouncilError,
    >)
        requires
            old(self).wf(),
            old(l).wf(),
            old(l).accounts@.len() < usize::MAX,
        ensures
            final(self).wf(),
            final(l).wf(),
            final(l).accounts@.len() <= old(l).accounts@.len() + 1,
            match r {
                Err(e) => {
                    &&& Some(e) == old(self).retract_check(who, index)
                    &&& *final(self) == *old(self)
                    &&& *final(l) == *old(l)
                },
                Ok(_) => {
                    &&& old(self).retract_check(who, index) is None
                    &&& *final(self) == (CouncilState { voters: final(self).voters, ..*old(self) })
                    &&& final(self).voters@ == swap_removed(old(self).voters@, index as int)
                    &&& final(self).voters@.len() == old(self).voters@.len() - 1
                    &&& !is_voter_in(final(self).voters@, who)
                    &&& final(l).same_except(*old(l), who)
                    &&& final(l).balance_of(who) == old(l).balance_of(who)
                    &&& final(l).reserved_of(who) == old(l).reserved_of(who) - min_u64(
                        old(self).voting_bond,
                        old(l).reserved_of(who),
                    )
                    &&& final(l).sum() == old(l).sum()
                },
            },
    {
        if self.presentation_active() {
            return Err(CouncilError::RetractPresentationActive);
        }
        let listed = match self.voter_position(who) {
            Some(_) => true,
            None => false,
        };
        if !listed {
            return Err(CouncilError::RetractNotVoter);
        }
        let idx = index as usize;
        if idx >= self.voters.len() {
            return Err(CouncilError::RetractIndexInvalid);
        }
        if self.voters[idx].who != who {
            return Err(CouncilError::RetractIndexMismatch);
        }
        proof {
            lemma_swap_remove_voter(self.voters@, idx as int);
        }
        self.voters.swap_remove(idx);
        l.unreserve(who, self.voting_bond);
        Ok(())
    }

    /// Why `reap_inactive_voter` would fail, if it would.
    pub open spec fn reap_check(
        self,
        reporter: u64,
        signed_index: u32,
        who: u64,
        who_index: u32,
        assumed_vote_index: u32,
    ) -> Option<CouncilError> {
        if self.presentation_active_spec() {
            Some(CouncilError::ReapPresentationActive)
        } else if !is_voter_in(self.voters@, reporter) {
            Some(CouncilError::ReapReporterNotVoter)
        } else if !is_voter_in(self.voters@, who) {
            Some(CouncilError::ReapTargetNotVoter)
        } else if assumed_vote_index != self.vote_index {
            Some(CouncilError::ReapIndexNotCurrent)
        } else if !((last_active_of(self.voters@, who) as int) < assumed_vote_index
            - self.inactivity_grace_period) {
            Some(CouncilError::ReapGracePeriod)
        } else if !(signed_index < self.voters@.len() && self.voters@[signed_index as int].who
            == reporter) {
            Some(CouncilError::ReapBadReporterIndex)
        } else if !(who_index < self.voters@.len() && self.voters@[who_index as int].who == who) {
            Some(CouncilError::ReapBadTargetIndex)
        } else {
            None
        }
    }

    /// A reap of `who` is valid when none of their approvals backs a live
    /// candidate who was already registered when `who` last voted: every
    /// approval is then provably stale.
    pub open spec fn reap_valid(self, who: u64) -> bool {
        let appr = approvals_of(self.voters@, who);
        let la = last_active_of(self.voters@, who);
        !exists|j: int|
            #![trigger appr[j]]
            0 <= j < appr.len() && j < self.candidates@.len() && appr[j]
                && self.candidates@[j] is Some && self.candidates@[j]->0.since <= la
    }

    /// Permissionless cleanup of a provably-inactive voter. If the target's
    /// approvals are all stale, the target is removed and their bond goes to
    /// the reporter; if any approval still counts, the reporter is removed
    /// instead and their own bond is burned. Exactly one of the two leaves
    /// the voter sequence.
    pub fn reap_inactive_voter(
        &mut self,
        l: &mut StakeLedger,
        reporter: u64,
        signed_index: u32,
        who: u64,
        who_index: u32,
        assumed_vote_index: u32,
    ) -> (r: Result<(), CouncilError>)
        requires
            old(self).wf(),
            old(l).wf(),
            old(l).accounts@.len() + 1 < usize::MAX,
        ensures
            final(self).wf(),
            final(l).wf(),
            final(l).accounts@.len() <= old(l).accounts@.len() + 2,
            match r {
                Err(e) => {
                    &&& Some(e) == old(self).reap_check(
                        reporter,
                        signed_index,
                        who,
                        who_index,
                        assumed_vote_index,
                    )
                    &&& *final(self) == *old(self)
                    &&& *final(l) == *old(l)
                },
                Ok(_) => {
                    let valid = old(self).reap_valid(who);
                    let removed_index = if valid {
                        who_index
                    } else {
                        signed_index
                    };
                    let removed = if valid {
                        who
                    } else {
                        reporter
                    };
                    &&& old(self).reap_check(
                        reporter,
                        signed_index,
                        who,
                        who_index,
                        assumed_vote_index,
                    ) is None
                    &&& *final(self) == (CouncilState { voters: final(self).voters, ..*old(self) })
                    &&& final(self).voters@ == swap_removed(
                        old(self).voters@,
                        removed_index as int,
                    )
                    &&& final(self).voters@.len() == old(self).voters@.len() - 1
                    &&& !is_voter_in(final(self).voters@, removed)
                    &&& reporter != who ==> is_voter_in(
                        final(self).voters@,
                        if valid {
                            reporter
                        } else {
                            who
                        },
                    )
                    &&& if valid {
                        if reporter != who {
                            let moved = min_u64(old(self).voting_bond, old(l).reserved_of(who));
                            &&& final(l).balance_of(who) == old(l).balance_of(who) - moved
                            &&& final(l).reserved_of(who) == old(l).reserved_of(who) - moved
                            &&& final(l).balance_of(reporter) == crate::ledger::sat_add_u64(
                                old(l).balance_of(reporter),
                                moved,
                            )
                            &&& final(l).reserved_of(reporter) == old(l).reserved_of(reporter)
                            &&& forall|w: u64|
                                w != who && w != reporter ==> final(l).balance_of(w) == old(
                                    l,
                                ).balance_of(w) && final(l).reserved_of(w) == old(l).reserved_of(w)
                            &&& final(l).total_stake == old(l).total_stake
                        } else {
                            &&& final(l).same_except(*old(l), who)
                            &&& final(l).balance_of(who) == old(l).balance_of(who)
                            &&& final(l).reserved_of(who) == old(l).reserved_of(who) - min_u64(
                                old(self).voting_bond,
                                old(l).reserved_of(who),
                            )
                            &&& final(l).sum() == old(l).sum()
                        }
                    } else {
                        let burned = min_u64(old(self).voting_bond, old(l).reserved_of(reporter));
                        &&& final(l).same_except(*old(l), reporter)
                        &&& final(l).balance_of(reporter) == old(l).balance_of(reporter) - burned
                        &&& final(l).reserved_of(reporter) == old(l).reserved_of(reporter) - burned
                        &&& final(l).sum() == old(l).sum() - burned
                    }
                },
            },
    {
        if self.presentation_active() {
            return Err(CouncilError::ReapPresentationActive);
        }
        let reporter_listed = match self.voter_position(reporter) {
            Some(_) => true,
            None => false,
        };
        if !reporter_listed {
            return Err(CouncilError::ReapReporterNotVoter);
        }
        let target_pos = match self.voter_position(who) {
            Some(p) => p,
            None => {
                return Err(CouncilError::ReapTargetNotVoter);
            },
        };
        if assumed_vote_index != self.vote_index {
            return Err(CouncilError::ReapIndexNotCurrent);
        }
        let last_active = self.voters[target_pos].last_active;
        proof {
            lemma_voter_lookup(self.voters@, target_pos as int);
        }
        let fresh = (assumed_vote_index as u64) <= (self.inactivity_grace_period as u64) || (
        last_active as u64) >= (assumed_vote_index as u64) - (self.inactivity_grace_period as u64);
        if fresh {
            return Err(CouncilError::ReapGracePeriod);
        }
        let si = signed_index as usize;
        if !(si < self.voters.len() && self.voters[si].who == reporter) {
            return Err(CouncilError::ReapBadReporterIndex);
        }
        let wi = who_index as usize;
        if !(wi < self.voters.len() && self.voters[wi].who == who) {
            return Err(CouncilError::ReapBadTargetIndex);
        }
        let valid = self.reap_is_valid(target_pos, last_active);
        if valid {
            proof {
                lemma_swap_remove_voter(self.voters@, wi as int);
            }
            self.voters.swap_remove(wi);
            if reporter != who {
                l.transfer_reserved(who, reporter, self.voting_bond);
            } else {
                l.unreserve(who, self.voting_bond);
            }
        } else {
            proof {
                lemma_swap_remove_voter(self.voters@, si as int);
            }
            self.voters.swap_remove(si);
            l.slash_reserved(reporter, self.voting_bond);
        }
        Ok(())
    }

    /// Whether the voter at `pos`, last active at `last_active`, approves no
    /// live candidate registered at or before that index.
    fn reap_is_valid(&self, pos: usize, last_active: u32) -> (r: bool)
        requires
            self.wf(),
            pos < self.voters@.len(),
            last_active == last_active_of(self.voters@, self.voters@[pos as int].who),
        ensures
            r == self.reap_valid(self.voters@[pos as int].who),
    {
        proof {
            lemma_voter_lookup(self.voters@, pos as int);
        }
        let ghost appr = approvals_of(self.voters@, self.voters@[pos as int].who);
        let n = self.voters[pos].approvals.len();
        let m = self.candidates.len();
        let bound = if n <= m {
            n
        } else {
            m
        };
        let mut j: usize = 0;
        while j < bound
            invariant
                self.wf(),
                pos < self.voters@.len(),
                bound <= self.voters@[pos as int].approvals@.len(),
                bound <= self.candidates@.len(),
                appr == self.voters@[pos as int].approvals@,
                n == self.voters@[pos as int].approvals@.len(),
                bound == if n <= self.candidates@.len() {
                    n as int
                } else {
                    self.candidates@.len() as int
                },
                j <= bound,
                last_active == last_active_of(self.voters@, self.voters@[pos as int].who),
                forall|k: int|
                    #![trigger appr[k]]
                    0 <= k < j ==> !(appr[k] && self.candidates@[k] is Some
                        && self.candidates@[k]->0.since <= last_active),
            decreases bound - j,
        {
            let approves = self.voters[pos].approvals[j];
            if approves {
                match &self.candidates[j] {
                    Some(c) => {
                        if c.since <= last_active {
                            proof {
                                lemma_voter_lookup(self.voters@, pos as int);
                                let w = self.voters@[pos as int].who;
                                assert(approvals_of(self.voters@, w)[j as int]);
                                assert(!self.reap_valid(w));
                            }
                            return false;
                        }
                    },
                    None => {},
                }
            }
            j += 1;
        }
        proof {
            let w = self.voters@[pos as int].who;
            let ap = approvals_of(self.voters@, w);
            if !self.reap_valid(w) {
                let k = choose|k: int|
                    0 <= k < ap.len() && k < self.candidates@.len() && ap[k]
                        && self.candidates@[k] is Some && self.candidates@[k]->0.since
                        <= last_active_of(self.voters@, w);
                assert(k < bound);
                assert(appr[k]);
                assert(false);
            }
        }
        true
    }

    /// The punishment for an invalid presentation: the per-voter rate times
    /// the voter count, clamped to the `u64` range.
    pub open spec fn present_punishment(self) -> u64 {
        if self.present_slash_per_voter * self.voters@.len() > u64::MAX {
            u64::MAX
        } else {
            (self.present_slash_per_voter * self.voters@.len()) as u64
        }
    }

    /// Why `present_winner` would fail, if it would.
    pub open spec fn present_check(
        self,
        l: StakeLedger,
        presenter: u64,
        candidate: u64,
        total: u64,
        index: u32,
    ) -> Option<CouncilError> {
        if index != self.vote_index {
            Some(CouncilError::PresentIndexNotCurrent)
        } else if !self.presentation_active_spec() {
            Some(CouncilError::PresentOutsidePresentationPeriod)
        } else if l.balance_of(presenter) < self.present_punishment() {
            Some(CouncilError::PresentInsufficientSlashableFunds)
        } else if total <= self.leaderboard@[0].stake {
            Some(CouncilError::PresentCandidateNotWorthy)
        } else if council_pos(self.active_council@, candidate) >= 0 && council_pos(
            self.active_council@,
            candidate,
        ) >= self.next_finalise->0.expiring@.len() {
            Some(CouncilError::PresentDuplicatedSeat)
        } else if !is_candidate_in(self.candidates@, candidate) {
            Some(CouncilError::PresentCandidateNotRegistered)
        } else {
            None
        }
    }

    /// A presentation enters the leaderboard only when the claimed total is
    /// exactly the recomputed one and the candidate is not already on it.
    pub open spec fn present_accepted(self, candidate: u64, total: u64) -> bool {
        &&& total == approval_stake(
            self.voters@,
            self.snapshoted_stakes@,
            reg_since(self.candidates@, candidate),
            reg_slot(self.candidates@, candidate),
        )
        &&& !lb_has_who(self.leaderboard@, candidate)
    }

    /// Claim a verified tally of `total` for `candidate` in the open
    /// presentation window. The engine recomputes the tally from the stake
    /// snapshot; an exact, novel claim displaces the lowest leaderboard
    /// line, while an inexact or duplicate one costs the presenter the full
    /// per-voter punishment. The leaderboard's length never changes.
    pub fn present_winner(
        &mut self,
        l: &mut StakeLedger,
        presenter: u64,
        candidate: u64,
        total: u64,
        index: u32,
    ) -> (r: Result<(), CouncilError>)
        requires
            old(self).wf(),
            old(l).wf(),
            old(l).accounts@.len() < usize::MAX,
        ensures
            final(self).wf(),
            final(l).wf(),
            final(self).leaderboard@.len() == old(self).leaderboard@.len(),
            match r {
                Err(e) => {
                    &&& Some(e) == old(self).present_check(*old(l), presenter, candidate, total, index)
                    &&& *final(self) == *old(self)
                    &&& *final(l) == *old(l)
                },
                Ok(_) => {
                    &&& old(self).present_check(*old(l), presenter, candidate, total, index) is None
                    &&& *final(self) == (CouncilState {
                        leaderboard: final(self).leaderboard,
                        ..*old(self)
                    })
                    &&& if old(self).present_accepted(candidate, total) {
                        &&& final(self).leaderboard@ == lb_after_present(
                            old(self).leaderboard@,
                            Entry { stake: total, who: candidate },
                        )
                        &&& *final(l) == *old(l)
                    } else {
                        &&& final(self).leaderboard@ == old(self).leaderboard@
                        &&& final(l).same_except(*old(l), presenter)
                        &&& final(l).balance_of(presenter) == old(l).balance_of(presenter) - old(
                            self,
                        ).present_punishment()
                        &&& final(l).reserved_of(presenter) == min_u64(
                            old(l).reserved_of(presenter),
                            final(l).balance_of(presenter),
                        )
                        &&& final(l).sum() == old(l).sum() - old(self).present_punishment()
                    }
                },
            },
    {
        if index != self.vote_index {
            return Err(CouncilError::PresentIndexNotCurrent);
        }
        let expiring_len: usize = match &self.next_finalise {
            Some(w) => w.expiring.len(),
            None => {
                return Err(CouncilError::PresentOutsidePresentationPeriod);
            },
        };
        let vlen = self.voters.len();
        proof {
            assert((self.present_slash_per_voter as int) * (vlen as int) <= (u64::MAX as int) * (
            usize::MAX as int)) by (nonlinear_arith)
                requires
                    self.present_slash_per_voter <= u64::MAX && vlen <= usize::MAX,
            ;
        }
        let prod: u128 = (self.present_slash_per_voter as u128) * (vlen as u128);
        let punishment: u64 = if prod > u64::MAX as u128 {
            u64::MAX
        } else {
            prod as u64
        };
        if !l.can_slash(presenter, punishment) {
            return Err(CouncilError::PresentInsufficientSlashableFunds);
        }
        if total <= self.leaderboard[0].stake {
            return Err(CouncilError::PresentCandidateNotWorthy);
        }
        proof {
            lemma_council_pos(self.active_council@, candidate);
        }
        let mut cpos: usize = 0;
        let mut seated = false;
        while cpos < self.active_council.len() && !seated
            invariant
                cpos <= self.active_council@.len(),
                !seated ==> forall|k: int| 0 <= k < cpos ==> self.active_council@[k].who
                    != candidate,
                seated ==> cpos < self.active_council@.len()
                    && self.active_council@[cpos as int].who == candidate && forall|k: int|
                    0 <= k < cpos ==> self.active_council@[k].who != candidate,
            decreases self.active_council@.len() - cpos + (if seated {
                0int
            } else {
                1int
            }),
        {
            if self.active_council[cpos].who == candidate {
                seated = true;
            } else {
                cpos += 1;
            }
        }
        if seated {
            proof {
                assert(council_pos(self.active_council@, candidate) == cpos);
            }
            if cpos >= expiring_len {
                return Err(CouncilError::PresentDuplicatedSeat);
            }
        }
        let (since, slot): (u32, usize) = match self.find_registration(candidate) {
            Some(pair) => pair,
            None => {
                return Err(CouncilError::PresentCandidateNotRegistered);
            },
        };
        proof {
            lemma_reg_slot(self.candidates@, slot as int);
        }
        let mut actual: u128 = 0;
        let mut k: usize = 0;
        while k < vlen
            invariant
                self.wf(),
                vlen == self.voters@.len(),
                self.snapshoted_stakes@.len() == self.voters@.len(),
                k <= vlen,
                actual == approval_stake_upto(
                    self.voters@,
                    self.snapshoted_stakes@,
                    since,
                    slot as int,
                    k as int,
                ),
                actual <= (k as int) * (u64::MAX as int),
            decreases vlen - k,
        {
            let v_active = self.voters[k].last_active >= since;
            let approves = v_active && slot < self.voters[k].approvals.len()
                && self.voters[k].approvals[slot];
            if approves {
                actual = actual + self.snapshoted_stakes[k] as u128;
            }
            k += 1;
        }
        let mut dupe = false;
        let mut d: usize = 0;
        while d < self.leaderboard.len() && !dupe
            invariant
                d <= self.leaderboard@.len(),
                !dupe ==> forall|j: int| 0 <= j < d ==> self.leaderboard@[j].who != candidate,
                dupe ==> lb_has_who(self.leaderboard@, candidate),
            decreases self.leaderboard@.len() - d + (if dupe {
                0int
            } else {
                1int
            }),
        {
            if self.leaderboard[d].who == candidate {
                dupe = true;
            } else {
                d += 1;
            }
        }
        if total as u128 == actual && !dupe {
            let ghost old_lb = self.leaderboard@;
            let entry = Entry { stake: total, who: candidate };
            self.leaderboard.remove(0);
            proof {
                assert(self.leaderboard@ =~= old_lb.drop_first());
            }
            let ghost rest = self.leaderboard@;
            proof {
                lemma_entries_geq_pos(rest, total);
            }
            let mut pos: usize = 0;
            while pos < self.leaderboard.len() && self.leaderboard[pos].stake < total
                invariant
                    self.leaderboard@ == rest,
                    pos <= rest.len(),
                    forall|j: int| 0 <= j < pos ==> rest[j].stake < total,
                decreases rest.len() - pos,
            {
                pos += 1;
            }
            proof {
                assert(pos == entries_geq_pos(rest, total)) by {
                    let p = entries_geq_pos(rest, total);
                    if pos < p {
                        assert(rest[pos as int].stake < total);
                    }
                    if p < pos {
                        assert(rest[p].stake < total);
                    }
                }
                rest.insert_ensures(pos as int, entry);
            }
            self.leaderboard.insert(pos, entry);
            proof {
                self.lemma_present_insert_wf(*old(self), rest, pos as int, entry, candidate);
            }
            Ok(())
        } else {
            l.slash(presenter, punishment);
            Ok(())
        }
    }

    /// Search the slot sequence for `who`'s registration.
    fn find_registration(&self, who: u64) -> (r: Option<(u32, usize)>)
        ensures
            match r {
                Some(pair) => pair.1 < self.candidates@.len() && self.candidates@[pair.1 as int]
                    is Some && self.candidates@[pair.1 as int]->0.who == who
                    && self.candidates@[pair.1 as int]->0.since == pair.0,
                None => !is_candidate_in(self.candidates@, who),
            },
    {
        let mut k: usize = 0;
        while k < self.candidates.len()
            invariant
                k <= self.candidates@.len(),
                forall|j: int|
                    #![trigger self.candidates@[j]]
                    0 <= j < k ==> !(self.candidates@[j] is Some && self.candidates@[j]->0.who
                        == who),
            decreases self.candidates@.len() - k,
        {
            match &self.candidates[k] {
                Some(c) => {
                    if c.who == who {
                        return Some((c.since, k));
                    }
                },
                None => {},
            }
            k += 1;
        }
        None
    }

    /// Inserting an accepted presentation keeps the leaderboard invariants.
    proof fn lemma_present_insert_wf(
        self,
        pre: CouncilState,
        rest: Seq<Entry>,
        pos: int,
        entry: Entry,
        candidate: u64,
    )
        requires
            pre.wf(),
            pre.next_finalise is Some,
            rest == pre.leaderboard@.drop_first(),
            entry.who == candidate,
            entry.stake > pre.leaderboard@[0].stake,
            pos == entries_geq_pos(rest, entry.stake),
            !lb_has_who(pre.leaderboard@, candidate),
            is_candidate_in(pre.candidates@, candidate),
            self == (CouncilState { leaderboard: self.leaderboard, ..pre }),
            self.leaderboard@ == rest.insert(pos, entry),
        ensures
            self.wf(),
    {
        let lb = self.leaderboard@;
        lemma_entries_geq_pos(rest, entry.stake);
        rest.insert_ensures(pos, entry);
        assert(lb.len() == pre.leaderboard@.len());
        assert forall|i: int, j: int| 0 <= i <= j < lb.len() implies lb[i].stake
            <= lb[j].stake by {
            if i < pos && j == pos {
            } else if i == pos && j > pos {
                assert(lb[j] == rest[j - 1]);
                assert(rest[j - 1].stake >= entry.stake) by {
                    if rest[j - 1].stake < entry.stake {
                        assert(entries_sorted(rest)) by {
                            assert forall|a: int, b: int|
                                0 <= a <= b < rest.len() implies rest[a].stake
                                <= rest[b].stake by {
                                assert(rest[a] == pre.leaderboard@[a + 1]);
                                assert(rest[b] == pre.leaderboard@[b + 1]);
                            }
                        }
                        if pos < rest.len() {
                            assert(rest[pos].stake >= entry.stake);
                            assert(rest[pos].stake <= rest[j - 1].stake);
                        } else {
                            assert(j - 1 >= rest.len());
                        }
                    }
                }
            } else if i < pos && j > pos {
                assert(lb[i] == rest[i]);
                assert(lb[j] == rest[j - 1]);
                assert(rest[i] == pre.leaderboard@[i + 1]);
                assert(rest[j - 1] == pre.leaderboard@[j]);
            } else if i < pos && j < pos {
                assert(lb[i] == rest[i]);
                assert(lb[j] == rest[j]);
                assert(rest[i] == pre.leaderboard@[i + 1]);
                assert(rest[j] == pre.leaderboard@[j + 1]);
            } else if i > pos && j > pos {
                assert(lb[i] == rest[i - 1]);
                assert(lb[j] == rest[j - 1]);
                assert(rest[i - 1] == pre.leaderboard@[i]);
                assert(rest[j - 1] == pre.leaderboard@[j]);
            }
        }
        assert forall|i: int, j: int|
            0 <= i < j < lb.len() && lb[i].stake > 0 && lb[j].stake > 0 implies lb[i].who
            != lb[j].who by {
            if i != pos && j != pos {
                let oi = if i < pos {
                    i + 1
                } else {
                    i
                };
                let oj = if j < pos {
                    j + 1
                } else {
                    j
                };
                assert(lb[i] == pre.leaderboard@[oi]);
                assert(lb[j] == pre.leaderboard@[oj]);
            } else if i == pos {
                let oj = j;
                assert(lb[j] == pre.leaderboard@[oj]);
            } else {
                let oi = i + 1;
                assert(lb[i] == pre.leaderboard@[oi]);
            }
        }
        assert forall|i: int| 0 <= i < lb.len() && lb[i].stake > 0 implies is_candidate_in(
            self.candidates@,
            lb[i].who,
        ) by {
            if i != pos {
                let oi = if i < pos {
                    i + 1
                } else {
                    i
                };
                assert(lb[i] == pre.leaderboard@[oi]);
            }
        }
    }

    /// Number of occupied candidate slots.
    pub fn candidate_count(&self) -> (r: usize)
        ensures
            r == occupied_count(self.candidates@),
    {
        let mut count: usize = 0;
        let mut k: usize = 0;
        while k < self.candidates.len()
            invariant
                k <= self.candidates@.len(),
                count <= k,
                count == occupied_count(self.candidates@.subrange(0, k as int)),
            decreases self.candidates@.len() - k,
        {
            proof {
                assert(self.candidates@.subrange(0, k + 1).drop_last() =~= self
                    .candidates@.subrange(0, k as int));
                assert(self.candidates@.subrange(0, k + 1).last() == self.candidates@[k as int]);
            }
            match &self.candidates[k] {
                Some(_) => {
                    count += 1;
                },
                None => {},
            }
            k += 1;
        }
        proof {
            assert(self.candidates@.subrange(0, self.candidates@.len() as int) =~= self
                .candidates@);
        }
        count
    }

    /// The slot argument `submit_candidacy` accepts: the exact end of a
    /// hole-free sequence, or an existing empty slot.
    pub open spec fn slot_valid(self, slot: u32) -> bool {
        ||| (slot == occupied_count(self.candidates@) && occupied_count(self.candidates@)
            == self.candidates@.len())
        ||| (slot < self.candidates@.len() && self.candidates@[slot as int] is None)
    }

    /// Why `submit_candidacy` would fail, if it would.
    pub open spec fn submit_candidacy_check(self, l: StakeLedger, who: u64, slot: u32) -> Option<
        CouncilError,
    > {
        if is_candidate_in(self.candidates@, who) {
            Some(CouncilError::DuplicateCandidateSubmission)
        } else if l.spendable_of(who) < self.candidacy_bond {
            Some(CouncilError::CandidateNotEnoughFunds)
        } else if !self.slot_valid(slot) {
            Some(CouncilError::InvalidCandidateSlot)
        } else {
            None
        }
    }

    /// Register `who` as a candidate for the current election in slot
    /// `slot`, paying the candidacy bond from their spendable balance. A new
    /// slot may be claimed only when no freed slot is left to reuse.
    pub fn submit_candidacy(&mut self, l: &mut StakeLedger, who: u64, slot: u32) -> (r: Result<
        (),
        CouncilError,
    >)
        requires
            old(self).wf(),
            old(l).wf(),
            old(l).accounts@.len() < usize::MAX,
            old(self).candidates@.len() < usize::MAX,
        ensures
            final(self).wf(),
            final(l).wf(),
            final(l).accounts@.len() <= old(l).accounts@.len() + 1,
            match r {
                Err(e) => {
                    &&& Some(e) == old(self).submit_candidacy_check(*old(l), who, slot)
                    &&& *final(self) == *old(self)
                    &&& *final(l) == *old(l)
                },
                Ok(_) => {
                    &&& old(self).submit_candidacy_check(*old(l), who, slot) is None
                    &&& *final(self) == (CouncilState {
                        candidates: final(self).candidates,
                        ..*old(self)
                    })
                    &&& final(self).candidates@ == if slot == old(self).candidates@.len() {
                        old(self).candidates@.push(
                            Some(Candidate { who, since: old(self).vote_index }),
                        )
                    } else {
                        old(self).candidates@.update(
                            slot as int,
                            Some(Candidate { who, since: old(self).vote_index }),
                        )
                    }
                    &&& is_candidate_in(final(self).candidates@, who)
                    &&& final(l).same_except(*old(l), who)
                    &&& final(l).balance_of(who) == old(l).balance_of(who) - old(
                        self,
                    ).candidacy_bond
                    &&& final(l).reserved_of(who) == old(l).reserved_of(who)
                    &&& final(l).sum() == old(l).sum() - old(self).candidacy_bond
                },
            },
    {
        if self.is_a_candidate(who) {
            return Err(CouncilError::DuplicateCandidateSubmission);
        }
        if l.spendable(who) < self.candidacy_bond {
            return Err(CouncilError::CandidateNotEnoughFunds);
        }
        let count = self.candidate_count();
        let slot_ok = (slot as usize == count && count == self.candidates.len()) || ((slot as usize)
            < self.candidates.len() && self.candidates[slot as usize].is_none());
        if !slot_ok {
            return Err(CouncilError::InvalidCandidateSlot);
        }
        let paid = l.deduct_unbonded(who, self.candidacy_bond);
        proof {
            assert(paid);
        }
        let ghost oc = self.candidates@;
        let entry = Some(Candidate { who, since: self.vote_index });
        if slot as usize == self.candidates.len() {
            self.candidates.push(entry);
        } else {
            self.candidates[slot as usize] = entry;
        }
        proof {
            let nc = self.candidates@;
            assert(is_candidate_in(nc, who)) by {
                assert(nc[slot as int] == entry);
            }
            assert(candidates_distinct(nc)) by {
                assert forall|i: int, j: int|
                    0 <= i < j < nc.len() && nc[i] is Some && nc[j] is Some implies nc[i]->0.who
                    != nc[j]->0.who by {
                    if i != slot && j != slot {
                        assert(nc[i] == oc[i] && nc[j] == oc[j]);
                    }
                }
            }
            if self.next_finalise is Some {
                assert forall|i: int|
                    0 <= i < self.leaderboard@.len() && self.leaderboard@[i].stake
                        > 0 implies is_candidate_in(nc, self.leaderboard@[i].who) by {
                    let w = self.leaderboard@[i].who;
                    let j = choose|j: int|
                        0 <= j < oc.len() && oc[j] is Some && oc[j]->0.who == w;
                    assert(nc[j] == oc[j]);
                }
            }
        }
        Ok(())
    }

    /// Remove every seat held by `who`, effective immediately.
    pub fn remove_member(&mut self, who: u64)
        requires
            old(self).wf(),
        ensures
            final(self).wf(),
            final(self).active_council@ == seats_without(old(self).active_council@, who),
            *final(self) == (CouncilState {
                active_council: final(self).active_council,
                ..*old(self)
            }),
    {
        let mut kept: Vec<Seat> = Vec::new();
        let mut k: usize = 0;
        while k < self.active_council.len()
            invariant
                k <= self.active_council@.len(),
                kept@ == seats_without(self.active_council@.subrange(0, k as int), who),
            decreases self.active_council@.len() - k,
        {
            let seat = self.active_council[k];
            proof {
                assert(self.active_council@.subrange(0, k + 1).drop_last() =~= self
                    .active_council@.subrange(0, k as int));
                assert(self.active_council@.subrange(0, k + 1).last() == seat);
            }
            if seat.who != who {
                kept.push(seat);
            }
            k += 1;
        }
        proof {
            assert(self.active_council@.subrange(0, self.active_council@.len() as int) =~= self
                .active_council@);
            lemma_seats_without(self.active_council@, who);
        }
        self.active_council = kept;
    }
}

} // verus!
