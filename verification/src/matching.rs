//! The matching predicate: given one candidate and one interviewer, decides
//! whether they can be paired now and, if so, on which slot.

use vstd::prelude::*;
use crate::model::{tier_rank, round_rank, Candidate, Interviewer};
use crate::slots::NUM_SLOTS;

verus! {

/// Outcome of evaluating one candidate/interviewer pair.
#[derive(Clone, Copy, Debug, PartialEq, Eq, Structural)]
pub enum MatchOutcome {
    /// The interviewer's tier is below the candidate's tier; never retry
    /// this pair.
    Ineligible,
    /// The interviewer has no remaining capacity; defensive, unreachable
    /// under the queue invariants.
    Exhausted,
    /// The interviewer's eligible-round ceiling is below the candidate's
    /// next round.
    RoundCeilingExceeded,
    /// Tiers and round are fine but no slot is mutually available.
    NoCommonSlot,
    /// Both parties are free at this slot, the lowest mutually available
    /// one.
    Match(u8),
}

/// First slot index at or after `i` that is set in both availability
/// tables, or 0 if there is none.
pub open spec fn first_common_from(a: Seq<bool>, b: Seq<bool>, i: int) -> int
    decreases NUM_SLOTS - i,
{
    if i < 1 || i >= NUM_SLOTS {
        0
    } else if a[i] && b[i] {
        i
    } else {
        first_common_from(a, b, i + 1)
    }
}

/// Lowest slot index mutually available to both parties, or 0 if there is
/// none.
pub open spec fn spec_match_slot(a: Seq<bool>, b: Seq<bool>) -> int {
    first_common_from(a, b, 1)
}

/// What the lowest mutual slot means bit by bit: a nonzero result is a
/// mutually set real slot preceded by none, and a zero result means no
/// real slot is mutually set.
pub proof fn lemma_match_slot_props(a: Seq<bool>, b: Seq<bool>)
    ensures
        spec_match_slot(a, b) == 0 ==> forall|j: int| 1 <= j < NUM_SLOTS ==> !(a[j] && b[j]),
        spec_match_slot(a, b) != 0 ==> {
            let s = spec_match_slot(a, b);
            &&& 1 <= s < NUM_SLOTS
            &&& a[s] && b[s]
            &&& forall|j: int| 1 <= j < s ==> !(a[j] && b[j])
        },
{
    lemma_first_common_from_props(a, b, 1);
}

/// As `lemma_match_slot_props`, but for a scan starting at `i`.
proof fn lemma_first_common_from_props(a: Seq<bool>, b: Seq<bool>, i: int)
    requires
        1 <= i,
    ensures
        first_common_from(a, b, i) == 0 ==> forall|j: int| i <= j < NUM_SLOTS ==> !(a[j] && b[j]),
        first_common_from(a, b, i) != 0 ==> {
            let s = first_common_from(a, b, i);
            &&& i <= s < NUM_SLOTS
            &&& a[s] && b[s]
            &&& forall|j: int| i <= j < s ==> !(a[j] && b[j])
        },
    decreases NUM_SLOTS - i,
{
    if i < NUM_SLOTS && !(a[i] && b[i]) {
        lemma_first_common_from_props(a, b, i + 1);
    }
}

/// A scan may skip a stretch of indices with no mutual availability.
proof fn lemma_first_common_from_skip(a: Seq<bool>, b: Seq<bool>, i: int, k: int)
    requires
        1 <= i <= k,
        forall|j: int| i <= j < k ==> !(a[j] && b[j]),
    ensures
        first_common_from(a, b, i) == first_common_from(a, b, k),
    decreases k - i,
{
    if i < k {
        lemma_first_common_from_skip(a, b, i + 1, k);
    }
}

/// Scans both availability tables for the lowest mutually available slot;
/// returns 0 when there is none.  The "lowest index wins" rule is the
/// deliberate deterministic tie-break.
pub fn match_slot(candidate_slot: &Vec<bool>, interviewer_slot: &Vec<bool>) -> (slot: u8)
    requires
        candidate_slot@.len() == NUM_SLOTS,
        interviewer_slot@.len() == NUM_SLOTS,
    ensures
        slot == spec_match_slot(candidate_slot@, interviewer_slot@),
{
    let mut slot: usize = 1;
    while slot < candidate_slot.len()
        invariant
            1 <= slot <= candidate_slot@.len() == NUM_SLOTS,
            interviewer_slot@.len() == NUM_SLOTS,
            forall|j: int| 1 <= j < slot ==> !(candidate_slot@[j] && interviewer_slot@[j]),
        decreases candidate_slot@.len() - slot,
    {
        if candidate_slot[slot] && interviewer_slot[slot] {
            proof {
                lemma_first_common_from_skip(candidate_slot@, interviewer_slot@, 1, slot as int);
            }
            return slot as u8;
        }
        slot += 1;
    }
    proof {
        lemma_first_common_from_skip(candidate_slot@, interviewer_slot@, 1, NUM_SLOTS as int);
    }
    0
}

/// The matching decision for one candidate/interviewer pair, checked in
/// this order: tier eligibility, remaining capacity, round ceiling, mutual
/// slot.
pub open spec fn spec_can_interview(c: Candidate, i: Interviewer) -> MatchOutcome {
    if tier_rank(c.experience) > tier_rank(i.interview_experience) {
        MatchOutcome::Ineligible
    } else if i.interviews_count == 0 {
        MatchOutcome::Exhausted
    } else if round_rank(i.eligible_rounds) < c.schedule@.len() {
        MatchOutcome::RoundCeilingExceeded
    } else if spec_match_slot(c.availability@, i.availability@) == 0 {
        MatchOutcome::NoCommonSlot
    } else {
        MatchOutcome::Match(spec_match_slot(c.availability@, i.availability@) as u8)
    }
}

/// Decides whether `candidate` and `interviewer` can be paired now and, if
/// so, on which slot (the lowest mutually available one).
pub fn can_interview(candidate: &Candidate, interviewer: &Interviewer) -> (outcome: MatchOutcome)
    requires
        candidate.wf(),
        interviewer.wf(),
    ensures
        outcome == spec_can_interview(*candidate, *interviewer),
{
    if candidate.experience.rank() > interviewer.interview_experience.rank() {
        return MatchOutcome::Ineligible;
    }
    if interviewer.interviews_count == 0 {
        return MatchOutcome::Exhausted;
    }
    if (interviewer.eligible_rounds.rank() as usize) < candidate.schedule.len() {
        return MatchOutcome::RoundCeilingExceeded;
    }
    let slot = match_slot(&candidate.availability, &interviewer.availability);
    if slot == 0 {
        return MatchOutcome::NoCommonSlot;
    }
    MatchOutcome::Match(slot)
}

} // verus!
