//! The entity model: experience tiers, interview rounds, candidates,
//! interviewers, and the per-candidate output records.

use vstd::prelude::*;
use crate::slots::{spec_slot_time, slot_time_string, NUM_SLOTS};

verus! {

/// Experience tier, ordered `SE1 < SE2 < Senior`.  A candidate may only be
/// matched to an interviewer whose tier is at least the candidate's tier.
#[derive(Clone, Copy, Debug, PartialEq, Eq, PartialOrd, Ord, Structural)]
pub enum Experience {
    SE1,
    SE2,
    Senior,
}

/// Ordinal rank of a tier; all tier comparisons go through this.
pub open spec fn tier_rank(e: Experience) -> int {
    match e {
        Experience::SE1 => 0,
        Experience::SE2 => 1,
        Experience::Senior => 2,
    }
}

impl Experience {
    /// Ordinal rank of this tier.
    pub fn rank(self) -> (r: u8)
        ensures
            r == tier_rank(self),
    {
        match self {
            Experience::SE1 => 0,
            Experience::SE2 => 1,
            Experience::Senior => 2,
        }
    }
}

/// Interview round, ordered `R1 < R2 < R3`.  An interviewer's
/// `eligible_rounds` is the highest round that interviewer may take.
#[derive(Clone, Copy, Debug, PartialEq, Eq, PartialOrd, Ord, Structural)]
pub enum InterviewRound {
    R1,
    R2,
    R3,
}

/// Ordinal rank of a round; all round comparisons go through this.
pub open spec fn round_rank(r: InterviewRound) -> int {
    match r {
        InterviewRound::R1 => 0,
        InterviewRound::R2 => 1,
        InterviewRound::R3 => 2,
    }
}

impl InterviewRound {
    /// Ordinal rank of this round.
    pub fn rank(self) -> (r: u8)
        ensures
            r == round_rank(self),
    {
        match self {
            InterviewRound::R1 => 0,
            InterviewRound::R2 => 1,
            InterviewRound::R3 => 2,
        }
    }
}

/// First real slot index (1 through 12) at or after `i` whose availability
/// bit is set, if any.
pub open spec fn first_true_from(avail: Seq<bool>, i: int) -> Option<u8>
    decreases NUM_SLOTS - i,
{
    if i < 1 || i >= NUM_SLOTS {
        None
    } else if avail[i] {
        Some(i as u8)
    } else {
        first_true_from(avail, i + 1)
    }
}

/// First available real slot of an availability table, if any.
pub open spec fn spec_first_available(avail: Seq<bool>) -> Option<u8> {
    first_true_from(avail, 1)
}

/// Sorting key derived from the first available slot: entities with no
/// remaining availability get a sentinel larger than any real slot index.
pub open spec fn first_slot_key(avail: Seq<bool>) -> int {
    match spec_first_available(avail) {
        Some(s) => s as int,
        None => 100,
    }
}

/// `first_true_from` skips over a stretch of cleared bits.
proof fn lemma_first_true_from_skip(avail: Seq<bool>, i: int, k: int)
    requires
        1 <= i <= k,
        forall|j: int| i <= j < k ==> !avail[j],
    ensures
        first_true_from(avail, i) == first_true_from(avail, k),
    decreases k - i,
{
    if i < k && i < NUM_SLOTS {
        lemma_first_true_from_skip(avail, i + 1, k);
    } else if i < k {
        lemma_first_true_from_skip(avail, i + 1, k);
    }
}

/// Scans an availability table for its first set real slot.
fn first_available_in(avail: &Vec<bool>) -> (r: Option<u8>)
    requires
        avail@.len() == NUM_SLOTS,
    ensures
        r == spec_first_available(avail@),
{
    let mut slot: usize = 1;
    while slot < avail.len()
        invariant
            1 <= slot <= avail@.len() == NUM_SLOTS,
            forall|j: int| 1 <= j < slot ==> !avail@[j],
        decreases avail@.len() - slot,
    {
        if avail[slot] {
            proof {
                lemma_first_true_from_skip(avail@, 1, slot as int);
            }
            return Some(slot as u8);
        }
        slot += 1;
    }
    proof {
        lemma_first_true_from_skip(avail@, 1, NUM_SLOTS as int);
    }
    None
}

/// Copies a boolean availability table.
fn copy_bools(v: &Vec<bool>) -> (r: Vec<bool>)
    ensures
        r@ == v@,
{
    let mut r: Vec<bool> = Vec::new();
    let mut i: usize = 0;
    while i < v.len()
        invariant
            0 <= i <= v@.len(),
            r@ == v@.subrange(0, i as int),
        decreases v@.len() - i,
    {
        r.push(v[i]);
        proof {
            assert(r@ =~= v@.subrange(0, i + 1));
        }
        i += 1;
    }
    proof {
        assert(r@ =~= v@);
    }
    r
}

/// Copies a slot schedule.
fn copy_slots(v: &Vec<u8>) -> (r: Vec<u8>)
    ensures
        r@ == v@,
{
    let mut r: Vec<u8> = Vec::new();
    let mut i: usize = 0;
    while i < v.len()
        invariant
            0 <= i <= v@.len(),
            r@ == v@.subrange(0, i as int),
        decreases v@.len() - i,
    {
        r.push(v[i]);
        proof {
            assert(r@ =~= v@.subrange(0, i + 1));
        }
        i += 1;
    }
    proof {
        assert(r@ =~= v@);
    }
    r
}

/// An availability table with every entry set.
pub fn full_availability() -> (r: Vec<bool>)
    ensures
        r@.len() == NUM_SLOTS,
        forall|j: int| 0 <= j < NUM_SLOTS ==> r@[j],
{
    let mut r: Vec<bool> = Vec::new();
    let mut i: usize = 0;
    while i < NUM_SLOTS
        invariant
            0 <= i <= NUM_SLOTS,
            r@.len() == i,
            forall|j: int| 0 <= j < i ==> r@[j],
        decreases NUM_SLOTS - i,
    {
        r.push(true);
        i += 1;
    }
    r
}

/// A job candidate: identity, tier, per-slot availability, and the slots
/// already committed this run.
#[derive(Debug, PartialEq, Eq)]
pub struct Candidate {
    pub serial_num: u8,
    pub name: String,
    pub experience: Experience,
    pub availability: Vec<bool>,
    pub schedule: Vec<u8>,
}

impl Candidate {
    /// The availability table has one entry per slot.
    pub open spec fn wf(self) -> bool {
        self.availability@.len() == NUM_SLOTS
    }

    /// A fresh candidate with the given availability and no committed slots.
    pub fn new(serial_num: u8, name: String, experience: Experience, availability: Vec<bool>) -> (
        r: Candidate)
        ensures
            r.serial_num == serial_num,
            r.name == name,
            r.experience == experience,
            r.availability == availability,
            r.schedule@ == Seq::<u8>::empty(),
    {
        Candidate { serial_num, name, experience, availability, schedule: Vec::new() }
    }

    /// A fresh candidate available at every slot.
    pub fn new_with_full_availability(serial_num: u8, name: String, experience: Experience) -> (
        r: Candidate)
        ensures
            r.serial_num == serial_num,
            r.name == name,
            r.experience == experience,
            r.availability@.len() == NUM_SLOTS,
            forall|j: int| 0 <= j < NUM_SLOTS ==> r.availability@[j],
            r.schedule@ == Seq::<u8>::empty(),
    {
        Candidate {
            serial_num,
            name,
            experience,
            availability: full_availability(),
            schedule: Vec::new(),
        }
    }

    /// First slot at which this candidate is still available, if any.
    pub fn first_available_slot(&self) -> (r: Option<u8>)
        requires
            self.wf(),
        ensures
            r == spec_first_available(self.availability@),
    {
        first_available_in(&self.availability)
    }

    /// Sorting key derived from the first available slot, with a sentinel
    /// larger than any real slot index when nothing is left.
    pub fn first_slot_key(&self) -> (r: u8)
        requires
            self.wf(),
        ensures
            r == first_slot_key(self.availability@),
    {
        match first_available_in(&self.availability) {
            Some(s) => s,
            None => 100,
        }
    }
}

impl Clone for Candidate {
    /// A field-for-field copy.
    fn clone(&self) -> (r: Self)
        ensures
            r.serial_num == self.serial_num,
            r.name == self.name,
            r.experience == self.experience,
            r.availability@ == self.availability@,
            r.schedule@ == self.schedule@,
    {
        Candidate {
            serial_num: self.serial_num,
            name: self.name.clone(),
            experience: self.experience,
            availability: copy_bools(&self.availability),
            schedule: copy_slots(&self.schedule),
        }
    }
}

/// Number of interviews an interviewer may conduct in one run.
pub const INTERVIEW_CAPACITY: u8 = 3;

/// An interviewer: identity, own tier (which bounds the candidate tiers it
/// may serve), per-slot availability, the highest round it may take, the
/// slots already committed, and its remaining capacity.
#[derive(Debug, PartialEq, Eq)]
pub struct Interviewer {
    pub name: String,
    pub interview_experience: Experience,
    pub availability: Vec<bool>,
    pub eligible_rounds: InterviewRound,
    pub schedule: Vec<u8>,
    pub interviews_count: u8,
}

impl Interviewer {
    /// The availability table has one entry per slot and the remaining
    /// capacity never exceeds the per-run cap.
    pub open spec fn wf(self) -> bool {
        &&& self.availability@.len() == NUM_SLOTS
        &&& self.interviews_count <= INTERVIEW_CAPACITY
    }

    /// A fresh interviewer with full remaining capacity and no committed
    /// slots.
    pub fn new(
        name: String,
        interview_experience: Experience,
        availability: Vec<bool>,
        eligible_rounds: InterviewRound,
    ) -> (r: Interviewer)
        ensures
            r.name == name,
            r.interview_experience == interview_experience,
            r.availability == availability,
            r.eligible_rounds == eligible_rounds,
            r.schedule@ == Seq::<u8>::empty(),
            r.interviews_count == INTERVIEW_CAPACITY,
    {
        Interviewer {
            name,
            interview_experience,
            availability,
            eligible_rounds,
            schedule: Vec::new(),
            interviews_count: INTERVIEW_CAPACITY,
        }
    }

    /// First slot at which this interviewer is still available, if any.
    pub fn first_available_slot(&self) -> (r: Option<u8>)
        requires
            self.wf(),
        ensures
            r == spec_first_available(self.availability@),
    {
        first_available_in(&self.availability)
    }

    /// Sorting key derived from the first available slot, with a sentinel
    /// larger than any real slot index when nothing is left.
    pub fn first_slot_key(&self) -> (r: u8)
        requires
            self.wf(),
        ensures
            r == first_slot_key(self.availability@),
    {
        match first_available_in(&self.availability) {
            Some(s) => s,
            None => 100,
        }
    }
}

/// One committed interview as it appears in the output: the interviewer's
/// name, the slot, its human-readable start time, and the round.
#[derive(Debug, PartialEq, Eq)]
pub struct InterviewDetail {
    pub interviewer: String,
    pub slot: u8,
    pub slot_human_friendly: String,
    pub round: InterviewRound,
}

impl InterviewDetail {
    /// Builds the output entry for one committed interview, rendering the
    /// slot's start time.
    pub fn new(interviewer: String, slot: u8, round: InterviewRound) -> (r: InterviewDetail)
        requires
            1 <= slot <= 12,
        ensures
            r.interviewer == interviewer,
            r.slot == slot,
            r.slot_human_friendly@ == spec_slot_time(slot as int),
            r.round == round,
    {
        let slot_human_friendly = slot_time_string(slot);
        InterviewDetail { interviewer, slot, slot_human_friendly, round }
    }
}

/// A candidate's finalized output record: the candidate as it stood when its
/// record was created, plus its committed interviews in order.
#[derive(Debug, PartialEq, Eq)]
pub struct CandidateInterviewDetails {
    pub candidate: Candidate,
    pub interview_details: Vec<InterviewDetail>,
}

/// One forbidden re-pairing: this interviewer has already met this candidate
/// in this run.
#[derive(Debug, PartialEq, Eq)]
pub struct InterviewPair {
    pub interviewer: String,
    pub candidate: String,
}

} // verus!
