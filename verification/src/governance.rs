//! The block-end hook tying the engines together: it drives the council's
//! and the referendum engine's time-based transitions, then dispatches each
//! approved proposal — closing the loop that lets a referendum administer
//! the council or cancel another referendum.

use vstd::prelude::*;

use crate::council::seats_without;
use crate::council::CouncilState;
use crate::democracy::DemocracyError;
use crate::democracy::DemocracyState;
use crate::democracy::Proposal;
use crate::ledger::StakeLedger;

verus! {

/// The whole governance core: both engines and the balance book they draw
/// bonds from.
pub struct Governance {
    pub council: CouncilState,
    pub democracy: DemocracyState,
    pub ledger: StakeLedger,
}

/// What dispatching one approved proposal does to the two engines.
pub open spec fn apply_rel(
    p: Proposal,
    pre_c: CouncilState,
    pre_d: DemocracyState,
    post_c: CouncilState,
    post_d: DemocracyState,
) -> bool {
    match p {
        Proposal::SetDesiredSeats(n) => {
            &&& post_c == (CouncilState { desired_seats: n, ..pre_c })
            &&& post_d == pre_d
        },
        Proposal::RemoveMember(w) => {
            &&& post_c.active_council@ == seats_without(pre_c.active_council@, w)
            &&& post_c == (CouncilState { active_council: post_c.active_council, ..pre_c })
            &&& post_d == pre_d
        },
        Proposal::SetPresentationDuration(d) => {
            &&& post_c == (CouncilState { presentation_duration: d, ..pre_c })
            &&& post_d == pre_d
        },
        Proposal::SetTermDuration(d) => {
            &&& post_c == (CouncilState { term_duration: d, ..pre_c })
            &&& post_d == pre_d
        },
        Proposal::CancelReferendum(i) => {
            &&& post_c == pre_c
            &&& post_d.referenda@ == if i < pre_d.referenda@.len() {
                pre_d.referenda@.update(i as int, None)
            } else {
                pre_d.referenda@
            }
            &&& post_d == (DemocracyState { referenda: post_d.referenda, ..pre_d })
        },
        Proposal::Opaque(_) => {
            &&& post_c == pre_c
            &&& post_d == pre_d
        },
    }
}

/// What dispatching a list of proposals, in order, does to the two engines.
pub open spec fn apply_all_rel(
    ps: Seq<Proposal>,
    c0: CouncilState,
    d0: DemocracyState,
    c1: CouncilState,
    d1: DemocracyState,
) -> bool
    decreases ps.len(),
{
    if ps.len() == 0 {
        c1 == c0 && d1 == d0
    } else {
        exists|cm: CouncilState, dm: DemocracyState|
            #[trigger] apply_rel(ps[0], c0, d0, cm, dm) && apply_all_rel(
                ps.drop_first(),
                cm,
                dm,
                c1,
                d1,
            )
    }
}

/// Extending a dispatch chain by one applied proposal.
pub proof fn lemma_apply_all_snoc(
    ps: Seq<Proposal>,
    x: Proposal,
    c0: CouncilState,
    d0: DemocracyState,
    c1: CouncilState,
    d1: DemocracyState,
    c2: CouncilState,
    d2: DemocracyState,
)
    requires
        apply_all_rel(ps, c0, d0, c1, d1),
        apply_rel(x, c1, d1, c2, d2),
    ensures
        apply_all_rel(ps.push(x), c0, d0, c2, d2),
    decreases ps.len(),
{
    if ps.len() == 0 {
        assert(ps.push(x)[0] == x);
        assert(ps.push(x).drop_first() =~= Seq::<Proposal>::empty());
        assert(apply_rel(ps.push(x)[0], c0, d0, c2, d2) && apply_all_rel(
            ps.push(x).drop_first(),
            c2,
            d2,
            c2,
            d2,
        ));
    } else {
        let (cm, dm) = choose|cm: CouncilState, dm: DemocracyState|
            #[trigger] apply_rel(ps[0], c0, d0, cm, dm) && apply_all_rel(
                ps.drop_first(),
                cm,
                dm,
                c1,
                d1,
            );
        lemma_apply_all_snoc(ps.drop_first(), x, cm, dm, c1, d1, c2, d2);
        assert(ps.push(x).drop_first() =~= ps.drop_first().push(x));
        assert(ps.push(x)[0] == ps[0]);
        assert(apply_rel(ps.push(x)[0], c0, d0, cm, dm) && apply_all_rel(
            ps.push(x).drop_first(),
            cm,
            dm,
            c2,
            d2,
        ));
    }
}

/// Dispatch one approved proposal into the engines.
pub fn dispatch(council: &mut CouncilState, democracy: &mut DemocracyState, p: Proposal)
    requires
        old(council).wf(),
        old(democracy).wf(),
    ensures
        final(council).wf(),
        final(democracy).wf(),
        apply_rel(p, *old(council), *old(democracy), *final(council), *final(democracy)),
{
    match p {
        Proposal::SetDesiredSeats(n) => {
            council.set_desired_seats(n);
        },
        Proposal::RemoveMember(w) => {
            council.remove_member(w);
        },
        Proposal::SetPresentationDuration(d) => {
            council.set_presentation_duration(d);
        },
        Proposal::SetTermDuration(d) => {
            council.set_term_duration(d);
        },
        Proposal::CancelReferendum(i) => {
            democracy.internal_cancel_referendum(i);
        },
        Proposal::Opaque(_) => {},
    }
}

impl Governance {
    /// Both engines and the ledger are well-formed.
    pub open spec fn wf(self) -> bool {
        &&& self.council.wf()
        &&& self.democracy.wf()
        &&& self.ledger.wf()
    }

    /// The block arithmetic of one whole block-end pass stays in bounds.
    pub open spec fn execute_in_bounds(self, now: u64) -> bool {
        &&& self.council.end_block_in_bounds(self.ledger, now)
        &&& now + self.democracy.voting_period <= u64::MAX
        &&& self.democracy.referenda@.len() < u32::MAX
        &&& forall|j: int|
            0 <= j < self.democracy.public_props@.len() ==> self.ledger.accounts@.len()
                + self.council.leaderboard@.len() + self.council.desired_seats
                + self.council.carry_count + self.democracy.public_props@[j].depositors@.len()
                < usize::MAX
    }

    /// One block-end pass, phase by phase: the council's hook, the
    /// referendum engine's hook, then the dispatch of each approved
    /// proposal in order.
    pub open spec fn execute_phases(
        pre: Governance,
        now: u64,
        c1: CouncilState,
        l1: StakeLedger,
        d1: DemocracyState,
        post: Governance,
        dispatched: Seq<Proposal>,
    ) -> bool {
        &&& CouncilState::end_block_rel(pre.council, pre.ledger, now, c1, l1)
        &&& DemocracyState::end_block_rel(pre.democracy, l1, now, d1, post.ledger, dispatched)
        &&& apply_all_rel(dispatched, c1, d1, post.council, post.democracy)
    }

    pub open spec fn execute_rel(
        pre: Governance,
        now: u64,
        post: Governance,
        dispatched: Seq<Proposal>,
    ) -> bool {
        exists|c1: CouncilState, l1: StakeLedger, d1: DemocracyState|
            #[trigger] Governance::execute_phases(pre, now, c1, l1, d1, post, dispatched)
    }

    /// The once-per-block hook driving the whole governance core. Returns
    /// the proposals approved and dispatched at this block; fails, changing
    /// nothing, only when launching a public proposal would break
    /// referendum maturation order.
    pub fn execute(&mut self, now: u64) -> (r: Result<Vec<Proposal>, DemocracyError>)
        requires
            old(self).wf(),
            old(self).execute_in_bounds(now),
        ensures
            final(self).wf(),
            match r {
                Err(e) => {
                    &&& Some(e) == old(self).democracy.launch_check(now)
                    &&& *final(self) == *old(self)
                },
                Ok(dispatched) => {
                    &&& old(self).democracy.launch_check(now) is None
                    &&& Governance::execute_rel(*old(self), now, *final(self), dispatched@)
                },
            },
    {
        // Validate the only failing step up front, so a failure commits
        // nothing from either engine.
        if now % self.democracy.launch_period == 0 && self.public_prop_pending() {
            let end = now + self.democracy.voting_period;
            let rlen = self.democracy.referenda.len();
            if rlen > 0 {
                let blocking = match &self.democracy.referenda[rlen - 1] {
                    Some(prev) => prev.end > end,
                    None => false,
                };
                if blocking {
                    return Err(DemocracyError::ReferendumEndsTooEarly);
                }
            }
        }
        self.council.end_block(&mut self.ledger, now);
        let ghost c1 = self.council;
        let ghost l1 = self.ledger;
        let approved_res = self.democracy.end_block(&mut self.ledger, now);
        let approved = match approved_res {
            Ok(a) => a,
            Err(_) => {
                proof {
                    assert(false);
                }
                Vec::new()
            },
        };
        let ghost d1 = self.democracy;
        let ghost l2 = self.ledger;
        let mut t: usize = 0;
        while t < approved.len()
            invariant
                t <= approved@.len(),
                self.council.wf(),
                self.democracy.wf(),
                self.ledger == l2,
                apply_all_rel(approved@.subrange(0, t as int), c1, d1, self.council, self.democracy),
            decreases approved@.len() - t,
        {
            let ghost pc = self.council;
            let ghost pd = self.democracy;
            dispatch(&mut self.council, &mut self.democracy, approved[t]);
            proof {
                assert(approved@.subrange(0, t + 1) =~= approved@.subrange(0, t as int).push(
                    approved@[t as int],
                ));
                lemma_apply_all_snoc(
                    approved@.subrange(0, t as int),
                    approved@[t as int],
                    c1,
                    d1,
                    pc,
                    pd,
                    self.council,
                    self.democracy,
                );
            }
            t += 1;
        }
        proof {
            assert(approved@.subrange(0, approved@.len() as int) =~= approved@);
            assert(Governance::execute_phases(*old(self), now, c1, l1, d1, *self, approved@));
        }
        Ok(approved)
    }

    /// Whether any public proposal is pending.
    fn public_prop_pending(&self) -> (r: bool)
        ensures
            r == (self.democracy.public_props@.len() > 0),
    {
        self.democracy.public_props.len() > 0
    }
}

} // verus!
