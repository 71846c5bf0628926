//! The allocation engine: the commit operation for one match, the
//! invariants that tie pools, records and the pairing map together, and the
//! round-by-round greedy allocation pass.

use vstd::prelude::*;
use crate::matching::{can_interview, lemma_match_slot_props, spec_can_interview, MatchOutcome};
use crate::model::{tier_rank, Candidate, CandidateInterviewDetails, Experience, InterviewDetail,
    InterviewPair, InterviewRound, Interviewer, INTERVIEW_CAPACITY};
use crate::queue::{has_pair, spec_pick_senior, InterviewLogistics};
use crate::records::{count_name_in, count_name_total, ensure_record, insert_pos,
    lemma_count_in_push, lemma_count_total_insert, lemma_count_total_update,
    lemma_insert_pos_bounds, lemma_serial_index_insert, lemma_serial_index_of_props,
    lemma_serial_index_update, new_record_for, push_detail, serial_index_of, sorted_by_serial};
use crate::slots::{spec_slot_time, NUM_SLOTS};

verus! {

/// `j` lies within the enforced buffer distance of a booked `slot`, within
/// the real slot range.
pub open spec fn blocked_near(j: int, slot: int) -> bool {
    1 <= j <= 12 && slot - 2 <= j <= slot + 2
}

/// Every real slot within buffer distance of `slot` is cleared in `avail`.
pub open spec fn avail_blocked_for(avail: Seq<bool>, slot: int) -> bool {
    &&& !avail[slot]
    &&& slot + 1 <= 12 ==> !avail[slot + 1]
    &&& slot + 2 <= 12 ==> !avail[slot + 2]
    &&& slot - 1 >= 1 ==> !avail[slot - 1]
    &&& slot - 2 >= 1 ==> !avail[slot - 2]
}

/// The two slots lie at least three apart: their bookings keep a full
/// hour's gap.
pub open spec fn slots_apart(x: int, y: int) -> bool {
    x - y >= 3 || y - x >= 3
}

/// Commits one match: appends the slot to both parties' schedules, clears
/// the slot and its buffer slots (distance one and two, clamped to the real
/// range) in both availability tables, and spends one unit of the
/// interviewer's capacity.
pub fn commit_match(candidate: &mut Candidate, interviewer: &mut Interviewer, slot: u8)
    requires
        old(candidate).wf(),
        old(interviewer).wf(),
        1 <= slot < NUM_SLOTS,
        old(candidate).availability@[slot as int],
        old(interviewer).availability@[slot as int],
        old(interviewer).interviews_count >= 1,
    ensures
        final(candidate).serial_num == old(candidate).serial_num,
        final(candidate).name == old(candidate).name,
        final(candidate).experience == old(candidate).experience,
        final(candidate).schedule@ == old(candidate).schedule@.push(slot),
        final(candidate).availability@.len() == NUM_SLOTS,
        forall|j: int|
            0 <= j < NUM_SLOTS ==> (#[trigger] final(candidate).availability@[j]) == (old(
                candidate,
            ).availability@[j] && !blocked_near(j, slot as int)),
        final(interviewer).name == old(interviewer).name,
        final(interviewer).interview_experience == old(interviewer).interview_experience,
        final(interviewer).eligible_rounds == old(interviewer).eligible_rounds,
        final(interviewer).schedule@ == old(interviewer).schedule@.push(slot),
        final(interviewer).interviews_count == old(interviewer).interviews_count - 1,
        final(interviewer).availability@.len() == NUM_SLOTS,
        forall|j: int|
            0 <= j < NUM_SLOTS ==> (#[trigger] final(interviewer).availability@[j]) == (old(
                interviewer,
            ).availability@[j] && !blocked_near(j, slot as int)),
{
    candidate.schedule.push(slot);
    interviewer.schedule.push(slot);
    interviewer.interviews_count = interviewer.interviews_count - 1;
    let s = slot as usize;
    interviewer.availability[s] = false;
    candidate.availability[s] = false;
    if slot < 12 {
        interviewer.availability[s + 1] = false;
        candidate.availability[s + 1] = false;
    }
    if slot > 1 {
        interviewer.availability[s - 1] = false;
        candidate.availability[s - 1] = false;
    }
    if slot < 11 {
        interviewer.availability[s + 2] = false;
        candidate.availability[s + 2] = false;
    }
    if slot > 2 {
        interviewer.availability[s - 2] = false;
        candidate.availability[s - 2] = false;
    }
}

/// `i` carries the name and tier of one of the input interviewers.
pub open spec fn from_input_intv(i: Interviewer, inputs: Seq<Interviewer>) -> bool {
    exists|k: int|
        0 <= k < inputs.len() && (#[trigger] inputs[k]).name@ == i.name@
            && inputs[k].interview_experience == i.interview_experience
}

/// `c` carries the serial, name and tier of one of the input candidates.
pub open spec fn from_input_cand(c: Candidate, inputs: Seq<Candidate>) -> bool {
    exists|k: int|
        0 <= k < inputs.len() && (#[trigger] inputs[k]).serial_num == c.serial_num
            && inputs[k].name@ == c.name@ && inputs[k].experience == c.experience
}

/// Initial remaining capacity of the input interviewer named `n` (0 when no
/// input interviewer bears that name).
pub open spec fn init_count_of(inputs: Seq<Interviewer>, n: Seq<char>) -> int
    decreases inputs.len(),
{
    if inputs.len() == 0 {
        0
    } else if inputs[0].name@ == n {
        inputs[0].interviews_count as int
    } else {
        init_count_of(inputs.drop_first(), n)
    }
}

/// With pairwise distinct input names, each input interviewer's initial
/// capacity is read back off its own name.
pub proof fn lemma_init_count_distinct(inputs: Seq<Interviewer>, k: int)
    requires
        0 <= k < inputs.len(),
        forall|a: int, b: int|
            0 <= a < b < inputs.len() ==> (#[trigger] inputs[a]).name@ != (
            #[trigger] inputs[b]).name@,
    ensures
        init_count_of(inputs, inputs[k].name@) == inputs[k].interviews_count,
    decreases k,
{
    if k > 0 {
        let rest = inputs.drop_first();
        assert(forall|a: int, b: int|
            0 <= a < b < rest.len() ==> (#[trigger] rest[a]).name@ != (#[trigger] rest[b]).name@);
        assert(inputs[0].name@ != inputs[k].name@);
        lemma_init_count_distinct(rest, k - 1);
    }
}

/// No initial capacity exceeds the per-run cap when every input interviewer
/// is well-formed.
pub proof fn lemma_init_count_bound(inputs: Seq<Interviewer>, n: Seq<char>)
    requires
        forall|k: int| 0 <= k < inputs.len() ==> (#[trigger] inputs[k]).wf(),
    ensures
        0 <= init_count_of(inputs, n) <= INTERVIEW_CAPACITY,
    decreases inputs.len(),
{
    if inputs.len() > 0 && inputs[0].name@ != n {
        lemma_init_count_bound(inputs.drop_first(), n);
    }
}

/// One committed output entry is sound: a real slot with its rendered time,
/// the round derived from its position, and an input interviewer whose tier
/// covers the record's candidate.
pub open spec fn detail_ok(
    rec: CandidateInterviewDetails,
    a: int,
    init_i: Seq<Interviewer>,
) -> bool {
    let d = rec.interview_details@[a];
    &&& 1 <= d.slot <= 12
    &&& d.slot_human_friendly@ == spec_slot_time(d.slot as int)
    &&& d.round == if a == 0 {
        InterviewRound::R1
    } else {
        InterviewRound::R2
    }
    &&& exists|k: int|
        0 <= k < init_i.len() && (#[trigger] init_i[k]).name@ == d.interviewer@ && tier_rank(
            rec.candidate.experience,
        ) <= tier_rank(init_i[k].interview_experience)
}

/// One output record is sound: it belongs to an input candidate (whose
/// snapshot was taken with at most one committed slot), holds at most two
/// sound details with pairwise distinct interviewers and slots a full hour
/// apart, and every entry is backed by the pairing map.
pub open spec fn record_ok(
    rec: CandidateInterviewDetails,
    init_c: Seq<Candidate>,
    init_i: Seq<Interviewer>,
    pairs: Seq<InterviewPair>,
) -> bool {
    &&& from_input_cand(rec.candidate, init_c)
    &&& rec.candidate.schedule@.len() <= 1
    &&& rec.interview_details@.len() <= 2
    &&& forall|a: int| 0 <= a < rec.interview_details@.len() ==> #[trigger] detail_ok(rec, a, init_i)
    &&& forall|a: int, b: int|
        0 <= a < b < rec.interview_details@.len() ==> (
        #[trigger] rec.interview_details@[a]).interviewer@ != (
        #[trigger] rec.interview_details@[b]).interviewer@
    &&& forall|a: int, b: int|
        0 <= a < b < rec.interview_details@.len() ==> slots_apart(
            (#[trigger] rec.interview_details@[a]).slot as int,
            (#[trigger] rec.interview_details@[b]).slot as int,
        )
    &&& forall|a: int|
        0 <= a < rec.interview_details@.len() ==> has_pair(
            pairs,
            (#[trigger] rec.interview_details@[a]).interviewer@,
            rec.candidate.name@,
        )
}

/// The whole output store is sound and no interviewer name is credited
/// beyond its initial capacity.
pub open spec fn records_ok(
    records: Seq<CandidateInterviewDetails>,
    init_c: Seq<Candidate>,
    init_i: Seq<Interviewer>,
    pairs: Seq<InterviewPair>,
) -> bool {
    &&& sorted_by_serial(records)
    &&& forall|k: int|
        0 <= k < records.len() ==> record_ok(#[trigger] records[k], init_c, init_i, pairs)
    &&& forall|n: Seq<char>| #[trigger] count_name_total(records, n) <= init_count_of(init_i, n)
}

/// Any two committed entries of the same interviewer, anywhere in the
/// output, lie a full hour apart.
pub open spec fn interviewer_gap_ok(records: Seq<CandidateInterviewDetails>) -> bool {
    forall|k1: int, a1: int, k2: int, a2: int|
        0 <= k1 < records.len() && 0 <= a1 < records[k1].interview_details@.len() && 0 <= k2
            < records.len() && 0 <= a2 < records[k2].interview_details@.len() && !(k1 == k2 && a1
            == a2) && (#[trigger] records[k1].interview_details@[a1]).interviewer@ == (
        #[trigger] records[k2].interview_details@[a2]).interviewer@ ==> slots_apart(
            records[k1].interview_details@[a1].slot as int,
            records[k2].interview_details@[a2].slot as int,
        )
}

/// A live interviewer is sound against the output so far: well-formed, an
/// input identity, credited for exactly the capacity it has spent, and
/// blocked around every slot it has committed to.
pub open spec fn intv_ok(
    i: Interviewer,
    records: Seq<CandidateInterviewDetails>,
    init_i: Seq<Interviewer>,
) -> bool {
    &&& i.wf()
    &&& from_input_intv(i, init_i)
    &&& count_name_total(records, i.name@) + i.interviews_count == init_count_of(init_i, i.name@)
    &&& forall|k: int, a: int|
        0 <= k < records.len() && 0 <= a < records[k].interview_details@.len() && (
        #[trigger] records[k].interview_details@[a]).interviewer@ == i.name@ ==> avail_blocked_for(
            i.availability@,
            records[k].interview_details@[a].slot as int,
        )
}

/// Every member of an interviewer pool is sound.
pub open spec fn intvs_ok(
    s: Seq<Interviewer>,
    records: Seq<CandidateInterviewDetails>,
    init_i: Seq<Interviewer>,
) -> bool {
    forall|k: int| 0 <= k < s.len() ==> intv_ok(#[trigger] s[k], records, init_i)
}

/// Pairwise distinct interviewer names within one pool.
pub open spec fn distinct_intv_names(s: Seq<Interviewer>) -> bool {
    forall|a: int, b: int|
        0 <= a < b < s.len() ==> (#[trigger] s[a]).name@ != (#[trigger] s[b]).name@
}

/// No interviewer name occurs in both pools.
pub open spec fn no_shared_names(x: Seq<Interviewer>, y: Seq<Interviewer>) -> bool {
    forall|a: int, b: int|
        0 <= a < x.len() && 0 <= b < y.len() ==> (#[trigger] x[a]).name@ != (#[trigger] y[b]).name@
}

/// Names are unique across the two pools and the deferred list together.
pub open spec fn pools_distinct(
    senior: Seq<Interviewer>,
    se2: Seq<Interviewer>,
    deferred: Seq<Interviewer>,
) -> bool {
    &&& distinct_intv_names(senior)
    &&& distinct_intv_names(se2)
    &&& distinct_intv_names(deferred)
    &&& no_shared_names(senior, se2)
    &&& no_shared_names(senior, deferred)
    &&& no_shared_names(se2, deferred)
}

/// A live candidate is sound against the output so far: well-formed, an
/// input identity, and in step with its own output record — the record (if
/// any) snapshots its identity, holds one detail per committed slot, and
/// every committed slot's buffer range is cleared in the candidate's
/// availability.  A candidate without a record has committed nothing.
pub open spec fn cand_link(
    c: Candidate,
    records: Seq<CandidateInterviewDetails>,
    init_c: Seq<Candidate>,
) -> bool {
    &&& c.wf()
    &&& from_input_cand(c, init_c)
    &&& serial_index_of(records, c.serial_num) >= 0 ==> {
        let rec = records[serial_index_of(records, c.serial_num)];
        &&& rec.candidate.name@ == c.name@
        &&& rec.candidate.experience == c.experience
        &&& rec.interview_details@.len() == c.schedule@.len()
        &&& forall|a: int|
            0 <= a < rec.interview_details@.len() ==> avail_blocked_for(
                c.availability@,
                (#[trigger] rec.interview_details@[a]).slot as int,
            )
    }
    &&& serial_index_of(records, c.serial_num) < 0 ==> c.schedule@.len() == 0
}

/// A queued candidate additionally still has a round to seek.
pub open spec fn cand_ok(
    c: Candidate,
    records: Seq<CandidateInterviewDetails>,
    init_c: Seq<Candidate>,
) -> bool {
    &&& cand_link(c, records, init_c)
    &&& c.schedule@.len() <= 1
}

/// Every queued candidate is sound.
pub open spec fn cands_ok(
    s: Seq<Candidate>,
    records: Seq<CandidateInterviewDetails>,
    init_c: Seq<Candidate>,
) -> bool {
    forall|k: int| 0 <= k < s.len() ==> cand_ok(#[trigger] s[k], records, init_c)
}

/// Nothing ties this interviewer to this candidate any more: either the
/// pairing is already recorded, or the matching predicate yields no match
/// for the pair.
pub open spec fn no_match_for(i: Interviewer, c: Candidate, pairs: Seq<InterviewPair>) -> bool {
    ||| has_pair(pairs, i.name@, c.name@)
    ||| !(spec_can_interview(c, i) is Match)
}

/// Pairwise distinct serial numbers within the candidate queue.
pub open spec fn distinct_serials(s: Seq<Candidate>) -> bool {
    forall|a: int, b: int|
        0 <= a < b < s.len() ==> (#[trigger] s[a]).serial_num != (#[trigger] s[b]).serial_num
}

/// Some queued candidate bears this serial.
pub open spec fn queue_has_serial(queue: Seq<Candidate>, serial: u8) -> bool {
    exists|k: int| 0 <= k < queue.len() && (#[trigger] queue[k]).serial_num == serial
}

/// Rounds a queued candidate may still be granted, as loop-measure weight.
pub open spec fn cand_weight(c: Candidate) -> nat {
    if c.schedule@.len() >= 2 {
        0nat
    } else {
        (2 - c.schedule@.len()) as nat
    }
}

/// Total remaining weight of the candidate queue; the outer allocation loop
/// strictly shrinks it.
pub open spec fn queue_weight(s: Seq<Candidate>) -> nat
    decreases s.len(),
{
    if s.len() == 0 {
        0nat
    } else {
        cand_weight(s[0]) + queue_weight(s.drop_first())
    }
}

/// Appending a candidate adds exactly its weight.
pub proof fn lemma_queue_weight_push(s: Seq<Candidate>, c: Candidate)
    ensures
        queue_weight(s.push(c)) == queue_weight(s) + cand_weight(c),
    decreases s.len(),
{
    assert(s.push(c).len() == s.len() + 1);
    assert(queue_weight(s.push(c)) == cand_weight(s.push(c)[0]) + queue_weight(
        s.push(c).drop_first(),
    ));
    if s.len() == 0 {
        assert(s.push(c)[0] == c);
        assert(s.push(c).drop_first() =~= Seq::<Candidate>::empty());
        assert(queue_weight(Seq::<Candidate>::empty()) == 0);
    } else {
        assert(s.push(c)[0] == s[0]);
        assert(s.push(c).drop_first() =~= s.drop_first().push(c));
        lemma_queue_weight_push(s.drop_first(), c);
        assert(queue_weight(s) == cand_weight(s[0]) + queue_weight(s.drop_first()));
    }
}

/// A pairing once recorded stays recorded as the map grows.
proof fn lemma_has_pair_extend(pairs: Seq<InterviewPair>, p: InterviewPair, x: Seq<char>, y: Seq<
    char>)
    requires
        has_pair(pairs, x, y),
    ensures
        has_pair(pairs.push(p), x, y),
{
    let k = choose|k: int|
        0 <= k < pairs.len() && (#[trigger] pairs[k]).interviewer@ == x && pairs[k].candidate@
            == y;
    assert(pairs.push(p)[k] == pairs[k]);
}

/// Index in the pre-commit store of the record that stands at `j` in the
/// post-commit store.
pub open spec fn pre_commit_index(didx: int, tidx: int, j: int) -> int {
    if didx >= 0 || j < tidx {
        j
    } else {
        j - 1
    }
}

/// How one commit reshapes the record store: the candidate's record (at
/// `serial_index_of`, or freshly inserted at `insert_pos`) gains exactly
/// the new detail, and every other record carries over in order.
pub open spec fn commit_transition(
    records_before: Seq<CandidateInterviewDetails>,
    recs1: Seq<CandidateInterviewDetails>,
    detail: InterviewDetail,
    serial: u8,
) -> bool {
    let didx = serial_index_of(records_before, serial);
    let tidx = if didx >= 0 {
        didx
    } else {
        insert_pos(records_before, serial)
    };
    &&& 0 <= tidx < recs1.len()
    &&& serial_index_of(recs1, serial) == tidx
    &&& didx >= 0 ==> {
        &&& recs1.len() == records_before.len()
        &&& forall|j: int|
            0 <= j < records_before.len() && j != didx ==> recs1[j] == records_before[j]
        &&& recs1[didx].candidate == records_before[didx].candidate
        &&& recs1[didx].interview_details@ == records_before[didx].interview_details@.push(detail)
    }
    &&& didx < 0 ==> {
        &&& recs1.len() == records_before.len() + 1
        &&& forall|j: int| 0 <= j < tidx ==> recs1[j] == records_before[j]
        &&& forall|j: int| tidx < j < recs1.len() ==> recs1[j] == records_before[j - 1]
        &&& recs1[tidx].interview_details@ == seq![detail]
    }
}

/// Everything that holds the moment one match has been committed: the old
/// state was sound, the predicate sanctioned the pairing, the entities were
/// mutated exactly as `commit_match` says, the pairing map gained exactly
/// this pairing, and the record store moved by `commit_transition`.
pub open spec fn commit_hyps(
    records_before: Seq<CandidateInterviewDetails>,
    recs1: Seq<CandidateInterviewDetails>,
    map_before: Seq<InterviewPair>,
    map1: Seq<InterviewPair>,
    cand_before: Candidate,
    cand_after: Candidate,
    intv_before: Interviewer,
    intv_after: Interviewer,
    detail: InterviewDetail,
    slot: u8,
    init_c: Seq<Candidate>,
    init_i: Seq<Interviewer>,
) -> bool {
    let serial = cand_before.serial_num;
    let iname = intv_before.name@;
    let cname = cand_before.name@;
    let didx = serial_index_of(records_before, serial);
    let tidx = if didx >= 0 {
        didx
    } else {
        insert_pos(records_before, serial)
    };
    &&& commit_transition(records_before, recs1, detail, serial)
    &&& records_ok(records_before, init_c, init_i, map_before)
    &&& interviewer_gap_ok(records_before)
    &&& cand_link(cand_before, records_before, init_c)
    &&& cand_before.schedule@.len() <= 1
    &&& intv_ok(intv_before, records_before, init_i)
    &&& 1 <= slot <= 12
    &&& cand_before.availability@[slot as int]
    &&& intv_before.availability@[slot as int]
    &&& tier_rank(cand_before.experience) <= tier_rank(intv_before.interview_experience)
    &&& intv_before.interviews_count >= 1
    &&& !has_pair(map_before, iname, cname)
    &&& map1.len() == map_before.len() + 1
    &&& forall|j: int| 0 <= j < map_before.len() ==> map1[j] == map_before[j]
    &&& map1.last().interviewer@ == iname
    &&& map1.last().candidate@ == cname
    &&& detail.interviewer@ == iname
    &&& detail.slot == slot
    &&& detail.slot_human_friendly@ == spec_slot_time(slot as int)
    &&& detail.round == if cand_before.schedule@.len() == 0 {
        InterviewRound::R1
    } else {
        InterviewRound::R2
    }
    &&& didx < 0 ==> recs1[tidx].candidate.serial_num == serial && recs1[tidx].candidate.name@
        == cname && recs1[tidx].candidate.experience == cand_before.experience
        && recs1[tidx].candidate.schedule@ == cand_after.schedule@
    &&& cand_after.serial_num == serial
    &&& cand_after.name@ == cname
    &&& cand_after.experience == cand_before.experience
    &&& cand_after.availability@.len() == NUM_SLOTS
    &&& forall|j: int|
        0 <= j < NUM_SLOTS ==> (#[trigger] cand_after.availability@[j]) == (
        cand_before.availability@[j] && !blocked_near(j, slot as int))
    &&& cand_after.schedule@ == cand_before.schedule@.push(slot)
    &&& intv_after.name@ == iname
    &&& intv_after.interview_experience == intv_before.interview_experience
    &&& intv_after.availability@.len() == NUM_SLOTS
    &&& forall|j: int|
        0 <= j < NUM_SLOTS ==> (#[trigger] intv_after.availability@[j]) == (
        intv_before.availability@[j] && !blocked_near(j, slot as int))
    &&& intv_after.interviews_count == intv_before.interviews_count - 1
}

/// One commit raises exactly the committing interviewer's total by one.
proof fn lemma_commit_counts(
    records_before: Seq<CandidateInterviewDetails>,
    recs1: Seq<CandidateInterviewDetails>,
    detail: InterviewDetail,
    serial: u8,
)
    requires
        commit_transition(records_before, recs1, detail, serial),
    ensures
        forall|n: Seq<char>|
            #[trigger] count_name_total(recs1, n) == count_name_total(records_before, n) + (
            if n == detail.interviewer@ {
                1int
            } else {
                0int
            }),
{
    let didx = serial_index_of(records_before, serial);
    let tidx = if didx >= 0 {
        didx
    } else {
        insert_pos(records_before, serial)
    };
    lemma_serial_index_of_props(records_before, serial);
    assert forall|n: Seq<char>|
        #[trigger] count_name_total(recs1, n) == count_name_total(records_before, n) + (if n
            == detail.interviewer@ {
            1int
        } else {
            0int
        }) by {
        if didx >= 0 {
            assert(recs1 =~= records_before.update(didx, recs1[didx]));
            lemma_count_total_update(records_before, didx, recs1[didx], n);
            lemma_count_in_push(records_before[didx].interview_details@, detail, n);
        } else {
            assert(recs1 =~= records_before.insert(tidx, recs1[tidx]));
            lemma_count_total_insert(records_before, tidx, recs1[tidx], n);
            assert(seq![detail].drop_last() =~= Seq::<InterviewDetail>::empty());
            assert(seq![detail].last() == detail);
            assert(count_name_in(Seq::<InterviewDetail>::empty(), n) == 0);
            assert(count_name_in(seq![detail], n) == (if n == detail.interviewer@ {
                1nat
            } else {
                0nat
            }));
        }
    }
}

/// After one commit the whole record store is sound again, and same-name
/// entries still lie a full hour apart.
#[verifier::rlimit(60)]
proof fn lemma_commit_records_ok(
    records_before: Seq<CandidateInterviewDetails>,
    recs1: Seq<CandidateInterviewDetails>,
    map_before: Seq<InterviewPair>,
    map1: Seq<InterviewPair>,
    cand_before: Candidate,
    cand_after: Candidate,
    intv_before: Interviewer,
    intv_after: Interviewer,
    detail: InterviewDetail,
    slot: u8,
    init_c: Seq<Candidate>,
    init_i: Seq<Interviewer>,
)
    requires
        commit_hyps(
            records_before,
            recs1,
            map_before,
            map1,
            cand_before,
            cand_after,
            intv_before,
            intv_after,
            detail,
            slot,
            init_c,
            init_i,
        ),
    ensures
        records_ok(recs1, init_c, init_i, map1),
        interviewer_gap_ok(recs1),
{
    let serial = cand_before.serial_num;
    let iname = intv_before.name@;
    let cname = cand_before.name@;
    let didx = serial_index_of(records_before, serial);
    let tidx = if didx >= 0 {
        didx
    } else {
        insert_pos(records_before, serial)
    };
    lemma_serial_index_of_props(records_before, serial);
    lemma_serial_index_of_props(recs1, serial);
    lemma_commit_counts(records_before, recs1, detail, serial);
    assert(map1 =~= map_before.push(map1.last()));
    // Sortedness carries over: serials are untouched (update) or were
    // placed in order by the store (insert is covered by the caller's
    // `push_detail`, whose ensures the caller passes in through
    // `commit_transition` together with `serial_index_of(recs1, serial)`).
    assert(sorted_by_serial(recs1)) by {
        if didx >= 0 {
            assert forall|a: int, b: int| 0 <= a < b < recs1.len() implies (
            #[trigger] recs1[a]).candidate.serial_num < (
            #[trigger] recs1[b]).candidate.serial_num by {
                assert(recs1[a].candidate.serial_num == records_before[a].candidate.serial_num);
                assert(recs1[b].candidate.serial_num == records_before[b].candidate.serial_num);
            }
        } else {
            assert forall|a: int, b: int| 0 <= a < b < recs1.len() implies (
            #[trigger] recs1[a]).candidate.serial_num < (
            #[trigger] recs1[b]).candidate.serial_num by {
                lemma_commit_sorted_case(records_before, recs1, detail, serial, a, b);
            }
        }
    }
    // Every record is sound under the grown map.
    assert forall|k: int| 0 <= k < recs1.len() implies record_ok(
        #[trigger] recs1[k],
        init_c,
        init_i,
        map1,
    ) by {
        if k != tidx {
            let kk = pre_commit_index(didx, tidx, k);
            assert(recs1[k] == records_before[kk]);
            assert(record_ok(records_before[kk], init_c, init_i, map_before));
            assert forall|a: int| 0 <= a < recs1[k].interview_details@.len() implies has_pair(
                map1,
                (#[trigger] recs1[k].interview_details@[a]).interviewer@,
                recs1[k].candidate.name@,
            ) by {
                lemma_has_pair_extend(
                    map_before,
                    map1.last(),
                    recs1[k].interview_details@[a].interviewer@,
                    recs1[k].candidate.name@,
                );
            }
        } else {
            let ds = recs1[k].interview_details@;
            let na = ds.len() - 1;
            assert(ds[na as int] == detail);
            if didx >= 0 {
                assert(record_ok(records_before[didx], init_c, init_i, map_before));
                assert(recs1[k].candidate == records_before[didx].candidate);
                assert(records_before[didx].candidate.name@ == cname);
                assert(records_before[didx].candidate.experience == cand_before.experience);
                assert(records_before[didx].interview_details@.len()
                    == cand_before.schedule@.len());
            } else {
                assert(cand_before.schedule@.len() == 0);
                assert(recs1[k].candidate.schedule@.len() == 1);
            }
            assert(recs1[k].candidate.name@ == cname);
            assert(recs1[k].candidate.experience == cand_before.experience);
            assert(from_input_cand(recs1[k].candidate, init_c)) by {
                assert(from_input_cand(cand_before, init_c));
                assert(recs1[k].candidate.serial_num == cand_before.serial_num);
            }
            assert(ds.len() <= 2);
            assert forall|a: int| 0 <= a < ds.len() implies #[trigger] detail_ok(
                recs1[k],
                a,
                init_i,
            ) by {
                if a < na {
                    assert(ds[a] == records_before[didx].interview_details@[a]);
                    assert(detail_ok(records_before[didx], a, init_i));
                } else {
                    assert(from_input_intv(intv_before, init_i));
                }
            }
            assert forall|a: int, b: int| 0 <= a < b < ds.len() implies (
            #[trigger] ds[a]).interviewer@ != (#[trigger] ds[b]).interviewer@ by {
                if b == na && didx >= 0 {
                    assert(has_pair(
                        map_before,
                        records_before[didx].interview_details@[a].interviewer@,
                        records_before[didx].candidate.name@,
                    ));
                }
            }
            assert forall|a: int, b: int| 0 <= a < b < ds.len() implies slots_apart(
                (#[trigger] ds[a]).slot as int,
                (#[trigger] ds[b]).slot as int,
            ) by {
                if b == na && didx >= 0 {
                    let t = records_before[didx].interview_details@[a].slot;
                    assert(avail_blocked_for(cand_before.availability@, t as int));
                    assert(detail_ok(records_before[didx], a, init_i));
                    assert(1 <= t <= 12);
                }
            }
            assert forall|a: int| 0 <= a < ds.len() implies has_pair(
                map1,
                (#[trigger] ds[a]).interviewer@,
                recs1[k].candidate.name@,
            ) by {
                if a < na {
                    lemma_has_pair_extend(
                        map_before,
                        map1.last(),
                        ds[a].interviewer@,
                        recs1[k].candidate.name@,
                    );
                } else {
                    assert(map1[map_before.len() as int].interviewer@ == iname);
                }
            }
        }
    }
    // The per-name capacity bound survives.
    assert forall|n: Seq<char>| #[trigger] count_name_total(recs1, n) <= init_count_of(
        init_i,
        n,
    ) by {
        if n == iname {
            assert(count_name_total(records_before, iname) + intv_before.interviews_count
                == init_count_of(init_i, iname));
        }
    }
    // Same-name entries anywhere still lie a full hour apart.
    assert forall|k1: int, a1: int, k2: int, a2: int|
        0 <= k1 < recs1.len() && 0 <= a1 < recs1[k1].interview_details@.len() && 0 <= k2
            < recs1.len() && 0 <= a2 < recs1[k2].interview_details@.len() && !(k1 == k2 && a1
            == a2) && (#[trigger] recs1[k1].interview_details@[a1]).interviewer@ == (
        #[trigger] recs1[k2].interview_details@[a2]).interviewer@ implies slots_apart(
        recs1[k1].interview_details@[a1].slot as int,
        recs1[k2].interview_details@[a2].slot as int,
    ) by {
        let nlen = recs1[tidx].interview_details@.len();
        let new1 = k1 == tidx && a1 == nlen - 1;
        let new2 = k2 == tidx && a2 == nlen - 1;
        if new1 && new2 {
            assert(false);
        } else if new1 || new2 {
            let ko = if new1 {
                k2
            } else {
                k1
            };
            let ao = if new1 {
                a2
            } else {
                a1
            };
            let kold = pre_commit_index(didx, tidx, ko);
            let od = if ko == tidx {
                records_before[didx].interview_details@[ao]
            } else {
                records_before[kold].interview_details@[ao]
            };
            assert(recs1[ko].interview_details@[ao] == od);
            assert(od.interviewer@ == iname);
            if ko == tidx {
                assert(detail_ok(records_before[didx], ao, init_i));
            } else {
                assert(record_ok(records_before[kold], init_c, init_i, map_before));
                assert(detail_ok(records_before[kold], ao, init_i));
            }
            assert(1 <= od.slot <= 12);
            assert(avail_blocked_for(intv_before.availability@, od.slot as int));
        } else {
            let o1 = if k1 == tidx {
                records_before[didx].interview_details@[a1]
            } else {
                records_before[pre_commit_index(didx, tidx, k1)].interview_details@[a1]
            };
            let o2 = if k2 == tidx {
                records_before[didx].interview_details@[a2]
            } else {
                records_before[pre_commit_index(didx, tidx, k2)].interview_details@[a2]
            };
            assert(recs1[k1].interview_details@[a1] == o1);
            assert(recs1[k2].interview_details@[a2] == o2);
        }
    }
}

/// Sortedness of the store after an insert, pair by pair.
proof fn lemma_commit_sorted_case(
    records_before: Seq<CandidateInterviewDetails>,
    recs1: Seq<CandidateInterviewDetails>,
    detail: InterviewDetail,
    serial: u8,
    a: int,
    b: int,
)
    requires
        commit_transition(records_before, recs1, detail, serial),
        serial_index_of(records_before, serial) < 0,
        sorted_by_serial(records_before),
        0 <= a < b < recs1.len(),
        recs1[serial_index_of(recs1, serial)].candidate.serial_num == serial,
    ensures
        recs1[a].candidate.serial_num < recs1[b].candidate.serial_num,
{
    let tidx = insert_pos(records_before, serial);
    lemma_insert_pos_bounds(records_before, serial);
    lemma_serial_index_of_props(records_before, serial);
    lemma_insert_pos_split(records_before, serial);
    if a == tidx {
        assert(recs1[b] == records_before[b - 1]);
    } else if b == tidx {
        assert(recs1[a] == records_before[a]);
    } else if a < tidx && b > tidx {
        assert(recs1[a] == records_before[a]);
        assert(recs1[b] == records_before[b - 1]);
    }
}

/// What `insert_pos` splits: smaller serials before it, larger ones at and
/// after it (given the serial is absent).
proof fn lemma_insert_pos_split(records: Seq<CandidateInterviewDetails>, serial: u8)
    requires
        sorted_by_serial(records),
        serial_index_of(records, serial) < 0,
    ensures
        forall|j: int|
            0 <= j < insert_pos(records, serial) ==> (
            #[trigger] records[j]).candidate.serial_num < serial,
        forall|j: int|
            insert_pos(records, serial) <= j < records.len() ==> (
            #[trigger] records[j]).candidate.serial_num > serial,
    decreases records.len(),
{
    lemma_insert_pos_bounds(records, serial);
    lemma_serial_index_of_props(records, serial);
    let pos = insert_pos(records, serial);
    if records.len() > 0 {
        let rest = records.drop_first();
        assert(forall|j: int| 0 <= j < rest.len() ==> #[trigger] rest[j] == records[j + 1]);
        assert(forall|a: int, b: int|
            0 <= a < b < rest.len() ==> (#[trigger] rest[a]).candidate.serial_num < (
            #[trigger] rest[b]).candidate.serial_num);
        if records[0].candidate.serial_num < serial {
            assert(serial_index_of(rest, serial) < 0);
            lemma_insert_pos_split(rest, serial);
            assert(pos == 1 + insert_pos(rest, serial));
            assert forall|j: int| 0 <= j < pos implies (
            #[trigger] records[j]).candidate.serial_num < serial by {
                if j > 0 {
                    assert(records[j] == rest[j - 1]);
                }
            }
            assert forall|j: int| pos <= j < records.len() implies (
            #[trigger] records[j]).candidate.serial_num > serial by {
                assert(records[j] == rest[j - 1]);
            }
        } else {
            assert(records[0].candidate.serial_num > serial);
            assert(pos == 0);
            assert forall|j: int| 0 <= j < records.len() implies (
            #[trigger] records[j]).candidate.serial_num > serial by {
                if j > 0 {
                    assert(records[0].candidate.serial_num < records[j].candidate.serial_num);
                }
            }
        }
    }
}

/// An availability table that was blocked around a slot stays blocked when
/// further bits are cleared.
proof fn lemma_blocked_still(before: Seq<bool>, after: Seq<bool>, slot: int, t: int)
    requires
        forall|j: int|
            0 <= j < NUM_SLOTS ==> (#[trigger] after[j]) == (before[j] && !blocked_near(j, slot)),
        avail_blocked_for(before, t),
        1 <= t <= 12,
    ensures
        avail_blocked_for(after, t),
{
}

/// Clearing a slot's whole buffer leaves the table blocked around it.
proof fn lemma_blocked_fresh(before: Seq<bool>, after: Seq<bool>, slot: int)
    requires
        forall|j: int|
            0 <= j < NUM_SLOTS ==> (#[trigger] after[j]) == (before[j] && !blocked_near(j, slot)),
        1 <= slot <= 12,
    ensures
        avail_blocked_for(after, slot),
{
}

/// Interviewers other than the committing one stay sound after the commit.
proof fn lemma_commit_intv_preserve(
    records_before: Seq<CandidateInterviewDetails>,
    recs1: Seq<CandidateInterviewDetails>,
    map_before: Seq<InterviewPair>,
    map1: Seq<InterviewPair>,
    cand_before: Candidate,
    cand_after: Candidate,
    intv_before: Interviewer,
    intv_after: Interviewer,
    detail: InterviewDetail,
    slot: u8,
    init_c: Seq<Candidate>,
    init_i: Seq<Interviewer>,
)
    requires
        commit_hyps(
            records_before,
            recs1,
            map_before,
            map1,
            cand_before,
            cand_after,
            intv_before,
            intv_after,
            detail,
            slot,
            init_c,
            init_i,
        ),
    ensures
        forall|m: Interviewer|
            m.name@ != intv_before.name@ && intv_ok(m, records_before, init_i) ==> intv_ok(
                m,
                recs1,
                init_i,
            ),
{
    let serial = cand_before.serial_num;
    let didx = serial_index_of(records_before, serial);
    let tidx = if didx >= 0 {
        didx
    } else {
        insert_pos(records_before, serial)
    };
    lemma_serial_index_of_props(records_before, serial);
    lemma_commit_counts(records_before, recs1, detail, serial);
    assert forall|m: Interviewer|
        m.name@ != intv_before.name@ && intv_ok(m, records_before, init_i) implies intv_ok(
        m,
        recs1,
        init_i,
    ) by {
        assert(count_name_total(recs1, m.name@) == count_name_total(records_before, m.name@));
        assert forall|k: int, a: int|
            0 <= k < recs1.len() && 0 <= a < recs1[k].interview_details@.len() && (
            #[trigger] recs1[k].interview_details@[a]).interviewer@ == m.name@ implies avail_blocked_for(
            m.availability@,
            recs1[k].interview_details@[a].slot as int,
        ) by {
            if k == tidx && a == recs1[k].interview_details@.len() - 1 {
                assert(recs1[k].interview_details@[a] == detail);
                assert(false);
            } else if k == tidx {
                assert(recs1[k].interview_details@[a]
                    == records_before[didx].interview_details@[a]);
            } else {
                assert(recs1[k] == records_before[pre_commit_index(didx, tidx, k)]);
            }
        }
    }
}

/// The committing interviewer itself is sound after the commit: its spent
/// capacity matches its credited total, and its availability lost only
/// bits, including the whole buffer around the new slot.
proof fn lemma_commit_self_intv(
    records_before: Seq<CandidateInterviewDetails>,
    recs1: Seq<CandidateInterviewDetails>,
    map_before: Seq<InterviewPair>,
    map1: Seq<InterviewPair>,
    cand_before: Candidate,
    cand_after: Candidate,
    intv_before: Interviewer,
    intv_after: Interviewer,
    detail: InterviewDetail,
    slot: u8,
    init_c: Seq<Candidate>,
    init_i: Seq<Interviewer>,
)
    requires
        commit_hyps(
            records_before,
            recs1,
            map_before,
            map1,
            cand_before,
            cand_after,
            intv_before,
            intv_after,
            detail,
            slot,
            init_c,
            init_i,
        ),
    ensures
        intv_ok(intv_after, recs1, init_i),
{
    let serial = cand_before.serial_num;
    let iname = intv_before.name@;
    let didx = serial_index_of(records_before, serial);
    let tidx = if didx >= 0 {
        didx
    } else {
        insert_pos(records_before, serial)
    };
    lemma_serial_index_of_props(records_before, serial);
    lemma_commit_counts(records_before, recs1, detail, serial);
    assert(intv_after.wf());
    assert(from_input_intv(intv_after, init_i)) by {
        assert(from_input_intv(intv_before, init_i));
    }
    assert(count_name_total(recs1, iname) == count_name_total(records_before, iname) + 1);
    assert forall|k: int, a: int|
        0 <= k < recs1.len() && 0 <= a < recs1[k].interview_details@.len() && (
        #[trigger] recs1[k].interview_details@[a]).interviewer@ == iname implies avail_blocked_for(
        intv_after.availability@,
        recs1[k].interview_details@[a].slot as int,
    ) by {
        if k == tidx && a == recs1[k].interview_details@.len() - 1 {
            assert(recs1[k].interview_details@[a] == detail);
            assert(detail.slot == slot);
            lemma_blocked_fresh(intv_before.availability@, intv_after.availability@, slot as int);
        } else {
            let od = if k == tidx {
                records_before[didx].interview_details@[a]
            } else {
                records_before[pre_commit_index(didx, tidx, k)].interview_details@[a]
            };
            assert(recs1[k].interview_details@[a] == od);
            if k == tidx {
                assert(record_ok(records_before[didx], init_c, init_i, map_before));
                assert(detail_ok(records_before[didx], a, init_i));
            } else {
                assert(record_ok(
                    records_before[pre_commit_index(didx, tidx, k)],
                    init_c,
                    init_i,
                    map_before,
                ));
                assert(detail_ok(records_before[pre_commit_index(didx, tidx, k)], a, init_i));
            }
            assert(1 <= od.slot <= 12);
            assert(avail_blocked_for(intv_before.availability@, od.slot as int));
            lemma_blocked_still(
                intv_before.availability@,
                intv_after.availability@,
                slot as int,
                od.slot as int,
            );
        }
    }
}

/// The candidate stays in step with its record after the commit.
proof fn lemma_commit_cand_after(
    records_before: Seq<CandidateInterviewDetails>,
    recs1: Seq<CandidateInterviewDetails>,
    map_before: Seq<InterviewPair>,
    map1: Seq<InterviewPair>,
    cand_before: Candidate,
    cand_after: Candidate,
    intv_before: Interviewer,
    intv_after: Interviewer,
    detail: InterviewDetail,
    slot: u8,
    init_c: Seq<Candidate>,
    init_i: Seq<Interviewer>,
)
    requires
        commit_hyps(
            records_before,
            recs1,
            map_before,
            map1,
            cand_before,
            cand_after,
            intv_before,
            intv_after,
            detail,
            slot,
            init_c,
            init_i,
        ),
    ensures
        cand_link(cand_after, recs1, init_c),
{
    let serial = cand_before.serial_num;
    let didx = serial_index_of(records_before, serial);
    let tidx = if didx >= 0 {
        didx
    } else {
        insert_pos(records_before, serial)
    };
    lemma_serial_index_of_props(records_before, serial);
    assert(from_input_cand(cand_after, init_c)) by {
        assert(from_input_cand(cand_before, init_c));
    }
    assert(serial_index_of(recs1, serial) == tidx);
    let rec = recs1[tidx];
    if didx >= 0 {
        assert(rec.candidate == records_before[didx].candidate);
        assert(records_before[didx].interview_details@.len() == cand_before.schedule@.len());
    }
    assert(rec.interview_details@.len() == cand_after.schedule@.len());
    assert forall|a: int| 0 <= a < rec.interview_details@.len() implies avail_blocked_for(
        cand_after.availability@,
        (#[trigger] rec.interview_details@[a]).slot as int,
    ) by {
        if didx >= 0 && a < rec.interview_details@.len() - 1 {
            assert(rec.interview_details@[a] == records_before[didx].interview_details@[a]);
            assert(record_ok(records_before[didx], init_c, init_i, map_before));
            assert(detail_ok(records_before[didx], a, init_i));
            assert(1 <= records_before[didx].interview_details@[a].slot <= 12);
            assert(avail_blocked_for(
                cand_before.availability@,
                rec.interview_details@[a].slot as int,
            ));
            lemma_blocked_still(
                cand_before.availability@,
                cand_after.availability@,
                slot as int,
                rec.interview_details@[a].slot as int,
            );
        } else {
            assert(rec.interview_details@[a] == detail);
            assert(detail.slot == slot);
            lemma_blocked_fresh(cand_before.availability@, cand_after.availability@, slot as int);
        }
    }
}

/// Queued candidates other than the committing one stay sound, and every
/// serial already recorded stays recorded.
proof fn lemma_commit_cands_preserve(
    records_before: Seq<CandidateInterviewDetails>,
    recs1: Seq<CandidateInterviewDetails>,
    map_before: Seq<InterviewPair>,
    map1: Seq<InterviewPair>,
    cand_before: Candidate,
    cand_after: Candidate,
    intv_before: Interviewer,
    intv_after: Interviewer,
    detail: InterviewDetail,
    slot: u8,
    init_c: Seq<Candidate>,
    init_i: Seq<Interviewer>,
)
    requires
        commit_hyps(
            records_before,
            recs1,
            map_before,
            map1,
            cand_before,
            cand_after,
            intv_before,
            intv_after,
            detail,
            slot,
            init_c,
            init_i,
        ),
    ensures
        forall|m: Candidate|
            m.serial_num != cand_before.serial_num && cand_ok(m, records_before, init_c)
                ==> cand_ok(m, recs1, init_c),
        forall|s: u8|
            serial_index_of(records_before, s) >= 0 ==> serial_index_of(recs1, s) >= 0,
{
    let serial = cand_before.serial_num;
    let didx = serial_index_of(records_before, serial);
    let tidx = if didx >= 0 {
        didx
    } else {
        insert_pos(records_before, serial)
    };
    lemma_serial_index_of_props(records_before, serial);
    assert forall|m: Candidate|
        m.serial_num != serial && cand_ok(m, records_before, init_c) implies cand_ok(
        m,
        recs1,
        init_c,
    ) by {
        let mi = serial_index_of(records_before, m.serial_num);
        lemma_serial_index_of_props(records_before, m.serial_num);
        if didx >= 0 {
            lemma_serial_index_update(records_before, didx, recs1[didx], m.serial_num);
            assert(recs1 =~= records_before.update(didx, recs1[didx]));
            if mi >= 0 {
                assert(records_before[didx].candidate.serial_num == serial);
                assert(mi != didx);
                assert(recs1[mi] == records_before[mi]);
            }
        } else {
            assert(recs1[tidx].candidate.serial_num == serial);
            assert(recs1 =~= records_before.insert(tidx, recs1[tidx]));
            lemma_serial_index_insert(records_before, tidx, recs1[tidx], m.serial_num);
        }
    }
    assert forall|s: u8| serial_index_of(records_before, s) >= 0 implies serial_index_of(
        recs1,
        s,
    ) >= 0 by {
        if s == serial {
            assert(serial_index_of(recs1, serial) == tidx);
        } else if didx >= 0 {
            assert(recs1 =~= records_before.update(didx, recs1[didx]));
            lemma_serial_index_update(records_before, didx, recs1[didx], s);
        } else {
            assert(recs1[tidx].candidate.serial_num == serial);
            assert(recs1 =~= records_before.insert(tidx, recs1[tidx]));
            lemma_serial_index_insert(records_before, tidx, recs1[tidx], s);
        }
    }
}

/// After one commit, pools of other interviewers, the deferred list and
/// the candidate queue are all still sound against the grown record store.
proof fn lemma_commit_pools(
    senior: Seq<Interviewer>,
    se2: Seq<Interviewer>,
    deferred: Seq<Interviewer>,
    queue: Seq<Candidate>,
    records_before: Seq<CandidateInterviewDetails>,
    recs1: Seq<CandidateInterviewDetails>,
    map_before: Seq<InterviewPair>,
    map1: Seq<InterviewPair>,
    cand_before: Candidate,
    cand_after: Candidate,
    intv_before: Interviewer,
    intv_after: Interviewer,
    detail: InterviewDetail,
    slot: u8,
    init_c: Seq<Candidate>,
    init_i: Seq<Interviewer>,
)
    requires
        commit_hyps(
            records_before,
            recs1,
            map_before,
            map1,
            cand_before,
            cand_after,
            intv_before,
            intv_after,
            detail,
            slot,
            init_c,
            init_i,
        ),
        intvs_ok(senior, records_before, init_i),
        intvs_ok(se2, records_before, init_i),
        intvs_ok(deferred, records_before, init_i),
        forall|k: int| 0 <= k < senior.len() ==> (#[trigger] senior[k]).name@ != intv_before.name@,
        forall|k: int| 0 <= k < se2.len() ==> (#[trigger] se2[k]).name@ != intv_before.name@,
        forall|k: int|
            0 <= k < deferred.len() ==> (#[trigger] deferred[k]).name@ != intv_before.name@,
        cands_ok(queue, records_before, init_c),
        forall|k: int|
            0 <= k < queue.len() ==> (#[trigger] queue[k]).serial_num
                != cand_before.serial_num,
    ensures
        intvs_ok(senior, recs1, init_i),
        intvs_ok(se2, recs1, init_i),
        intvs_ok(deferred, recs1, init_i),
        cands_ok(queue, recs1, init_c),
        forall|s: u8|
            serial_index_of(records_before, s) >= 0 ==> serial_index_of(recs1, s) >= 0,
{
    lemma_commit_intv_preserve(
        records_before,
        recs1,
        map_before,
        map1,
        cand_before,
        cand_after,
        intv_before,
        intv_after,
        detail,
        slot,
        init_c,
        init_i,
    );
    lemma_commit_cands_preserve(
        records_before,
        recs1,
        map_before,
        map1,
        cand_before,
        cand_after,
        intv_before,
        intv_after,
        detail,
        slot,
        init_c,
        init_i,
    );
    assert forall|k: int| 0 <= k < senior.len() implies intv_ok(
        #[trigger] senior[k],
        recs1,
        init_i,
    ) by {
        assert(intv_ok(senior[k], records_before, init_i));
    }
    assert forall|k: int| 0 <= k < se2.len() implies intv_ok(#[trigger] se2[k], recs1, init_i) by {
        assert(intv_ok(se2[k], records_before, init_i));
    }
    assert forall|k: int| 0 <= k < deferred.len() implies intv_ok(
        #[trigger] deferred[k],
        recs1,
        init_i,
    ) by {
        assert(intv_ok(deferred[k], records_before, init_i));
    }
    assert forall|k: int| 0 <= k < queue.len() implies cand_ok(
        #[trigger] queue[k],
        recs1,
        init_c,
    ) by {
        assert(cand_ok(queue[k], records_before, init_c));
    }
}

/// One allocation pass for `cand`: pops interviewers under the merge
/// policy and evaluates the matching predicate until one matches or the
/// pools are exhausted.  An ineligible or no-common-slot interviewer is
/// held aside and returned to its pool at the end of the pass; one that is
/// out of capacity, over its round ceiling, or already paired with this
/// candidate is dropped for the rest of the run.  On a match the slot is
/// committed, the pairing recorded, and the output record extended.
#[verifier::loop_isolation(false)]
#[verifier::rlimit(100)]
pub fn try_allocate_round(
    logistics: &mut InterviewLogistics,
    cand: &mut Candidate,
    records: &mut Vec<CandidateInterviewDetails>,
    Ghost(init_c): Ghost<Seq<Candidate>>,
    Ghost(init_i): Ghost<Seq<Interviewer>>,
) -> (allocated: bool)
    requires
        intvs_ok(old(logistics).senior_interviewers@, old(records)@, init_i),
        intvs_ok(old(logistics).se2_interviewers@, old(records)@, init_i),
        pools_distinct(
            old(logistics).senior_interviewers@,
            old(logistics).se2_interviewers@,
            Seq::<Interviewer>::empty(),
        ),
        records_ok(old(records)@, init_c, init_i, old(logistics).interviewer_candidate_map@),
        interviewer_gap_ok(old(records)@),
        cand_link(*old(cand), old(records)@, init_c),
        old(cand).schedule@.len() <= 1,
        cands_ok(old(logistics).candidate@, old(records)@, init_c),
        forall|k: int|
            0 <= k < old(logistics).candidate@.len() ==> (
            #[trigger] old(logistics).candidate@[k]).serial_num != old(cand).serial_num,
    ensures
        intvs_ok(final(logistics).senior_interviewers@, final(records)@, init_i),
        intvs_ok(final(logistics).se2_interviewers@, final(records)@, init_i),
        pools_distinct(
            final(logistics).senior_interviewers@,
            final(logistics).se2_interviewers@,
            Seq::<Interviewer>::empty(),
        ),
        records_ok(final(records)@, init_c, init_i, final(logistics).interviewer_candidate_map@),
        interviewer_gap_ok(final(records)@),
        cand_link(*final(cand), final(records)@, init_c),
        cands_ok(final(logistics).candidate@, final(records)@, init_c),
        final(logistics).candidate == old(logistics).candidate,
        final(cand).serial_num == old(cand).serial_num,
        final(cand).name@ == old(cand).name@,
        final(cand).experience == old(cand).experience,
        allocated ==> final(cand).schedule@.len() == old(cand).schedule@.len() + 1
            && serial_index_of(final(records)@, final(cand).serial_num) >= 0,
        !allocated ==> final(cand).schedule@ == old(cand).schedule@,
        // Progress: a pass comes back empty-handed only when every senior
        // pool member was already paired with this candidate or yields no
        // match — and likewise for the SE2 pool, which non-senior
        // candidates also draw from.
        !allocated ==> forall|k: int|
            0 <= k < old(logistics).senior_interviewers@.len() ==> no_match_for(
                #[trigger] old(logistics).senior_interviewers@[k],
                *old(cand),
                old(logistics).interviewer_candidate_map@,
            ),
        !allocated && old(cand).experience != Experience::Senior ==> forall|k: int|
            0 <= k < old(logistics).se2_interviewers@.len() ==> no_match_for(
                #[trigger] old(logistics).se2_interviewers@[k],
                *old(cand),
                old(logistics).interviewer_candidate_map@,
            ),
        forall|s: u8|
            serial_index_of(old(records)@, s) >= 0 ==> serial_index_of(final(records)@, s) >= 0,
{
    let ghost senior_init = old(logistics).senior_interviewers@;
    let ghost se2_init = old(logistics).se2_interviewers@;
    let ghost map_init = old(logistics).interviewer_candidate_map@;
    let ghost cand_init = *old(cand);
    let mut deferred: Vec<Interviewer> = Vec::new();
    let mut allocated = false;
    let mut trying = true;
    while trying
        invariant
            intvs_ok(logistics.senior_interviewers@, records@, init_i),
            intvs_ok(logistics.se2_interviewers@, records@, init_i),
            intvs_ok(deferred@, records@, init_i),
            pools_distinct(
                logistics.senior_interviewers@,
                logistics.se2_interviewers@,
                deferred@,
            ),
            records_ok(records@, init_c, init_i, logistics.interviewer_candidate_map@),
            interviewer_gap_ok(records@),
            cand_link(*cand, records@, init_c),
            cands_ok(logistics.candidate@, records@, init_c),
            logistics.candidate == old(logistics).candidate,
            cand.serial_num == old(cand).serial_num,
            cand.name@ == old(cand).name@,
            cand.experience == old(cand).experience,
            trying ==> !allocated && *cand == *old(cand) && records@ == old(records)@
                && logistics.interviewer_candidate_map@ == old(
                logistics,
            ).interviewer_candidate_map@,
            allocated ==> cand.schedule@.len() == old(cand).schedule@.len() + 1
                && serial_index_of(records@, cand.serial_num) >= 0,
            !allocated ==> cand.schedule@ == old(cand).schedule@,
            forall|s: u8|
                serial_index_of(old(records)@, s) >= 0 ==> serial_index_of(records@, s) >= 0,
            // While trying, the pools are shrinking suffixes of the initial
            // pools, and every member already popped off the front was
            // paired or yielded no match.
            trying ==> logistics.senior_interviewers@.len() <= senior_init.len()
                && logistics.se2_interviewers@.len() <= se2_init.len(),
            trying ==> logistics.senior_interviewers@ == senior_init.subrange(
                senior_init.len() - logistics.senior_interviewers@.len(),
                senior_init.len() as int,
            ),
            trying ==> logistics.se2_interviewers@ == se2_init.subrange(
                se2_init.len() - logistics.se2_interviewers@.len(),
                se2_init.len() as int,
            ),
            trying ==> forall|k: int|
                0 <= k < senior_init.len() - logistics.senior_interviewers@.len()
                    ==> no_match_for(#[trigger] senior_init[k], cand_init, map_init),
            trying ==> forall|k: int|
                0 <= k < se2_init.len() - logistics.se2_interviewers@.len() ==> no_match_for(
                    #[trigger] se2_init[k],
                    cand_init,
                    map_init,
                ),
            !trying && !allocated ==> forall|k: int|
                0 <= k < senior_init.len() ==> no_match_for(
                    #[trigger] senior_init[k],
                    cand_init,
                    map_init,
                ),
            !trying && !allocated && cand_init.experience != Experience::Senior ==> forall|k: int|
                0 <= k < se2_init.len() ==> no_match_for(
                    #[trigger] se2_init[k],
                    cand_init,
                    map_init,
                ),
        decreases logistics.senior_interviewers@.len() + logistics.se2_interviewers@.len() + (
        if trying {
            1int
        } else {
            0int
        }),
    {
        let ghost senior0 = logistics.senior_interviewers@;
        let ghost se20 = logistics.se2_interviewers@;
        assert(logistics.wf());
        let intv_opt = logistics.get_interviewer(cand.experience);
        match intv_opt {
            None => {
                proof {
                    // Exhaustion: a pop of the SE2 pool never comes back
                    // empty while that pool is nonempty, so the pools this
                    // candidate draws from are drained, and the scanned
                    // prefix covers them whole.
                    assert(spec_pick_senior(senior0, se20, cand.experience));
                    assert(senior0.len() == 0);
                    if cand.experience != Experience::Senior {
                        assert(se20.len() == 0);
                    }
                }
                trying = false;
            },
            Some(mut intv) => {
                proof {
                    if spec_pick_senior(senior0, se20, cand.experience) {
                        assert(intv == senior0[0]);
                        assert(logistics.senior_interviewers@ == senior0.drop_first());
                        assert(forall|k: int|
                            0 <= k < senior0.drop_first().len()
                                ==> #[trigger] senior0.drop_first()[k] == senior0[k + 1]);
                    } else {
                        assert(intv == se20[0]);
                        assert(logistics.se2_interviewers@ == se20.drop_first());
                        assert(forall|k: int|
                            0 <= k < se20.drop_first().len() ==> #[trigger] se20.drop_first()[k]
                                == se20[k + 1]);
                    }
                    assert(intv_ok(intv, records@, init_i));
                    assert(forall|k: int|
                        0 <= k < logistics.senior_interviewers@.len() ==> (
                        #[trigger] logistics.senior_interviewers@[k]).name@ != intv.name@);
                    assert(forall|k: int|
                        0 <= k < logistics.se2_interviewers@.len() ==> (
                        #[trigger] logistics.se2_interviewers@[k]).name@ != intv.name@);
                    assert(forall|k: int|
                        0 <= k < deferred@.len() ==> (#[trigger] deferred@[k]).name@
                            != intv.name@);
                }
                let ghost tried = intv;
                if intv.interviews_count == 0 {
                    // Defensive: an exhausted interviewer slipped through;
                    // drop it and retry with the next one.
                    proof {
                        assert(!(spec_can_interview(cand_init, tried) is Match));
                    }
                } else if logistics.is_already_paired(&intv.name, &cand.name) {
                    // Forbidden re-pairing: drop this interviewer without
                    // returning it to the pool, and retry.
                    proof {
                        assert(has_pair(map_init, tried.name@, cand_init.name@));
                    }
                } else {
                    let outcome = can_interview(&*cand, &intv);
                    match outcome {
                        MatchOutcome::Ineligible => {
                            proof {
                                assert(!(spec_can_interview(cand_init, tried) is Match));
                            }
                            deferred.push(intv);
                        },
                        MatchOutcome::Exhausted => {
                            // Defensive: out of capacity at the predicate;
                            // dropped, not returned.
                            proof {
                                assert(!(spec_can_interview(cand_init, tried) is Match));
                            }
                        },
                        MatchOutcome::RoundCeilingExceeded => {
                            // Over its round ceiling: dropped for the rest
                            // of the run.
                            proof {
                                assert(!(spec_can_interview(cand_init, tried) is Match));
                            }
                        },
                        MatchOutcome::NoCommonSlot => {
                            proof {
                                assert(!(spec_can_interview(cand_init, tried) is Match));
                            }
                            deferred.push(intv);
                        },
                        MatchOutcome::Match(slot) => {
                            proof {
                                lemma_match_slot_props(cand.availability@, intv.availability@);
                                assert(1 <= slot < NUM_SLOTS);
                                assert(cand.availability@[slot as int]);
                                assert(intv.availability@[slot as int]);
                                assert(tier_rank(cand.experience) <= tier_rank(
                                    intv.interview_experience,
                                ));
                            }
                            let ghost cand_before = *cand;
                            let ghost intv_before = intv;
                            let ghost records_before = records@;
                            let ghost map_before = logistics.interviewer_candidate_map@;
                            let ghost serial = cand.serial_num;
                            let ghost didx = serial_index_of(records_before, serial);
                            commit_match(cand, &mut intv, slot);
                            logistics.record_pair(&intv.name, &cand.name);
                            let round = if cand.schedule.len() == 1 {
                                InterviewRound::R1
                            } else {
                                InterviewRound::R2
                            };
                            let detail = InterviewDetail::new(intv.name.clone(), slot, round);
                            proof {
                                lemma_serial_index_of_props(records_before, serial);
                                lemma_insert_pos_bounds(records_before, serial);
                            }
                            push_detail(records, cand, detail);
                            proof {
                                let recs1 = records@;
                                let map1 = logistics.interviewer_candidate_map@;
                                assert(commit_transition(records_before, recs1, detail, serial));
                                assert(commit_hyps(
                                    records_before,
                                    recs1,
                                    map_before,
                                    map1,
                                    cand_before,
                                    *cand,
                                    intv_before,
                                    intv,
                                    detail,
                                    slot,
                                    init_c,
                                    init_i,
                                ));
                                lemma_commit_records_ok(
                                    records_before,
                                    recs1,
                                    map_before,
                                    map1,
                                    cand_before,
                                    *cand,
                                    intv_before,
                                    intv,
                                    detail,
                                    slot,
                                    init_c,
                                    init_i,
                                );
                                lemma_commit_self_intv(
                                    records_before,
                                    recs1,
                                    map_before,
                                    map1,
                                    cand_before,
                                    *cand,
                                    intv_before,
                                    intv,
                                    detail,
                                    slot,
                                    init_c,
                                    init_i,
                                );
                                lemma_commit_cand_after(
                                    records_before,
                                    recs1,
                                    map_before,
                                    map1,
                                    cand_before,
                                    *cand,
                                    intv_before,
                                    intv,
                                    detail,
                                    slot,
                                    init_c,
                                    init_i,
                                );
                                assert(forall|k: int|
                                    0 <= k < logistics.candidate@.len() ==> (
                                    #[trigger] logistics.candidate@[k]).serial_num != serial);
                                lemma_commit_pools(
                                    logistics.senior_interviewers@,
                                    logistics.se2_interviewers@,
                                    deferred@,
                                    logistics.candidate@,
                                    records_before,
                                    recs1,
                                    map_before,
                                    map1,
                                    cand_before,
                                    *cand,
                                    intv_before,
                                    intv,
                                    detail,
                                    slot,
                                    init_c,
                                    init_i,
                                );
                            }
                            if intv.interviews_count > 0 {
                                let ghost senior1 = logistics.senior_interviewers@;
                                let ghost se21 = logistics.se2_interviewers@;
                                logistics.add_interviewer(intv);
                                proof {
                                    if intv.interview_experience == Experience::Senior {
                                        assert(logistics.senior_interviewers@ == senior1.push(
                                            intv,
                                        ));
                                    } else if intv.interview_experience == Experience::SE2 {
                                        assert(logistics.se2_interviewers@ == se21.push(intv));
                                    }
                                }
                            }
                            allocated = true;
                            trying = false;
                        },
                    }
                }
                proof {
                    if trying {
                        // The tried interviewer extends the scanned prefix
                        // of the pool it was popped from.
                        assert(no_match_for(tried, cand_init, map_init));
                        if spec_pick_senior(senior0, se20, cand_init.experience) {
                            let p = senior_init.len() - senior0.len();
                            assert(senior0 == senior_init.subrange(p, senior_init.len() as int));
                            assert(tried == senior_init[p]);
                            assert(logistics.senior_interviewers@ =~= senior_init.subrange(
                                p + 1,
                                senior_init.len() as int,
                            ));
                        } else {
                            let p = se2_init.len() - se20.len();
                            assert(se20 == se2_init.subrange(p, se2_init.len() as int));
                            assert(tried == se2_init[p]);
                            assert(logistics.se2_interviewers@ =~= se2_init.subrange(
                                p + 1,
                                se2_init.len() as int,
                            ));
                        }
                    }
                }
            },
        }
    }
    // Return the held-aside interviewers to their pools, in tried order.
    while deferred.len() > 0
        invariant
            intvs_ok(logistics.senior_interviewers@, records@, init_i),
            intvs_ok(logistics.se2_interviewers@, records@, init_i),
            intvs_ok(deferred@, records@, init_i),
            pools_distinct(
                logistics.senior_interviewers@,
                logistics.se2_interviewers@,
                deferred@,
            ),
            records_ok(records@, init_c, init_i, logistics.interviewer_candidate_map@),
            interviewer_gap_ok(records@),
            cand_link(*cand, records@, init_c),
            cands_ok(logistics.candidate@, records@, init_c),
            logistics.candidate == old(logistics).candidate,
            cand.serial_num == old(cand).serial_num,
            cand.name@ == old(cand).name@,
            cand.experience == old(cand).experience,
            allocated ==> cand.schedule@.len() == old(cand).schedule@.len() + 1
                && serial_index_of(records@, cand.serial_num) >= 0,
            !allocated ==> cand.schedule@ == old(cand).schedule@,
            forall|s: u8|
                serial_index_of(old(records)@, s) >= 0 ==> serial_index_of(records@, s) >= 0,
        decreases deferred@.len(),
    {
        let ghost deferred0 = deferred@;
        let i = deferred.remove(0);
        proof {
            assert(deferred@ =~= deferred0.drop_first());
            assert(forall|k: int|
                0 <= k < deferred@.len() ==> #[trigger] deferred@[k] == deferred0[k + 1]);
        }
        logistics.add_interviewer(i);
    }
    allocated
}

/// A record with no details, freshly inserted for a finalized candidate,
/// leaves every soundness fact and every count as it was.
proof fn lemma_insert_empty_record(
    records_before: Seq<CandidateInterviewDetails>,
    recs1: Seq<CandidateInterviewDetails>,
    c: Candidate,
    map: Seq<InterviewPair>,
    init_c: Seq<Candidate>,
    init_i: Seq<Interviewer>,
)
    requires
        records_ok(records_before, init_c, init_i, map),
        interviewer_gap_ok(records_before),
        serial_index_of(records_before, c.serial_num) < 0,
        c.schedule@.len() <= 1,
        ({
            let pos = insert_pos(records_before, c.serial_num);
            &&& recs1.len() == records_before.len() + 1
            &&& forall|j: int| 0 <= j < pos ==> recs1[j] == records_before[j]
            &&& forall|j: int| pos < j < recs1.len() ==> recs1[j] == records_before[j - 1]
            &&& new_record_for(recs1[pos], c)
            &&& recs1[pos].interview_details@.len() == 0
            &&& serial_index_of(recs1, c.serial_num) == pos
        }),
        sorted_by_serial(recs1),
        from_input_cand(c, init_c),
    ensures
        records_ok(recs1, init_c, init_i, map),
        interviewer_gap_ok(recs1),
        forall|m: Interviewer| intv_ok(m, records_before, init_i) ==> intv_ok(m, recs1, init_i),
        forall|m: Candidate|
            m.serial_num != c.serial_num && cand_ok(m, records_before, init_c) ==> cand_ok(
                m,
                recs1,
                init_c,
            ),
        forall|s: u8|
            serial_index_of(records_before, s) >= 0 ==> serial_index_of(recs1, s) >= 0,
{
    let serial = c.serial_num;
    let pos = insert_pos(records_before, serial);
    lemma_insert_pos_bounds(records_before, serial);
    assert(recs1 =~= records_before.insert(pos, recs1[pos]));
    assert(recs1[pos].interview_details@ =~= Seq::<InterviewDetail>::empty());
    assert forall|n: Seq<char>| #[trigger] count_name_total(recs1, n) == count_name_total(
        records_before,
        n,
    ) by {
        lemma_count_total_insert(records_before, pos, recs1[pos], n);
        assert(count_name_in(Seq::<InterviewDetail>::empty(), n) == 0);
    }
    assert forall|k: int| 0 <= k < recs1.len() implies record_ok(
        #[trigger] recs1[k],
        init_c,
        init_i,
        map,
    ) by {
        if k != pos {
            let kk = if k < pos {
                k
            } else {
                k - 1
            };
            assert(recs1[k] == records_before[kk]);
            assert(record_ok(records_before[kk], init_c, init_i, map));
        } else {
            assert(recs1[pos].candidate.serial_num == c.serial_num);
        }
    }
    assert forall|m: Interviewer| intv_ok(m, records_before, init_i) implies intv_ok(
        m,
        recs1,
        init_i,
    ) by {
        assert forall|k: int, a: int|
            0 <= k < recs1.len() && 0 <= a < recs1[k].interview_details@.len() && (
            #[trigger] recs1[k].interview_details@[a]).interviewer@ == m.name@ implies avail_blocked_for(
            m.availability@,
            recs1[k].interview_details@[a].slot as int,
        ) by {
            assert(k != pos);
            let kk = if k < pos {
                k
            } else {
                k - 1
            };
            assert(recs1[k] == records_before[kk]);
        }
    }
    assert forall|k1: int, a1: int, k2: int, a2: int|
        0 <= k1 < recs1.len() && 0 <= a1 < recs1[k1].interview_details@.len() && 0 <= k2
            < recs1.len() && 0 <= a2 < recs1[k2].interview_details@.len() && !(k1 == k2 && a1
            == a2) && (#[trigger] recs1[k1].interview_details@[a1]).interviewer@ == (
        #[trigger] recs1[k2].interview_details@[a2]).interviewer@ implies slots_apart(
        recs1[k1].interview_details@[a1].slot as int,
        recs1[k2].interview_details@[a2].slot as int,
    ) by {
        assert(k1 != pos && k2 != pos);
        let kk1 = if k1 < pos {
            k1
        } else {
            k1 - 1
        };
        let kk2 = if k2 < pos {
            k2
        } else {
            k2 - 1
        };
        assert(recs1[k1] == records_before[kk1]);
        assert(recs1[k2] == records_before[kk2]);
    }
    assert forall|m: Candidate|
        m.serial_num != serial && cand_ok(m, records_before, init_c) implies cand_ok(
        m,
        recs1,
        init_c,
    ) by {
        lemma_serial_index_of_props(records_before, m.serial_num);
        lemma_serial_index_insert(records_before, pos, recs1[pos], m.serial_num);
    }
    assert forall|s: u8| serial_index_of(records_before, s) >= 0 implies serial_index_of(
        recs1,
        s,
    ) >= 0 by {
        if s == serial {
            lemma_serial_index_of_props(records_before, s);
            assert(false);
        } else {
            lemma_serial_index_insert(records_before, pos, recs1[pos], s);
        }
    }
}

/// The top-level greedy scheduling algorithm: repeatedly pulls a candidate,
/// tries interviewers until one matches or the pools are exhausted, commits
/// the match, and re-queues the candidate for a second round while it has
/// one to seek.  Every candidate ends with exactly one output record,
/// ordered by serial number: up to two committed interviews, or fewer when
/// no interviewer could be found — expected degraded output, not an error.
#[verifier::loop_isolation(false)]
#[verifier::rlimit(100)]
pub fn run_allocation(logistics: &mut InterviewLogistics) -> (records: Vec<
    CandidateInterviewDetails>)
    requires
        old(logistics).wf(),
        forall|k: int|
            0 <= k < old(logistics).candidate@.len() ==> (
            #[trigger] old(logistics).candidate@[k]).schedule@.len() == 0,
        distinct_serials(old(logistics).candidate@),
        distinct_intv_names(
            old(logistics).senior_interviewers@ + old(logistics).se2_interviewers@,
        ),
        old(logistics).interviewer_candidate_map@.len() == 0,
    ensures
        records_ok(
            records@,
            old(logistics).candidate@,
            old(logistics).senior_interviewers@ + old(logistics).se2_interviewers@,
            final(logistics).interviewer_candidate_map@,
        ),
        interviewer_gap_ok(records@),
        // Every input candidate is covered by exactly one record, in serial
        // order.
        forall|k: int|
            0 <= k < old(logistics).candidate@.len() ==> serial_index_of(
                records@,
                (#[trigger] old(logistics).candidate@[k]).serial_num,
            ) >= 0,
        // No candidate receives more than two rounds, and the candidate
        // snapshot inside each record was taken with at most one committed
        // slot.
        forall|k: int|
            0 <= k < records@.len() ==> (#[trigger] records@[k]).interview_details@.len() <= 2
                && records@[k].candidate.schedule@.len() <= 1,
        // No interviewer meets the same candidate twice.
        forall|k: int, a: int, b: int|
            0 <= k < records@.len() && 0 <= a < b < records@[k].interview_details@.len() ==> (
            #[trigger] records@[k].interview_details@[a]).interviewer@ != (
            #[trigger] records@[k].interview_details@[b]).interviewer@,
        // No interviewer conducts more than its capacity of interviews.
        forall|n: Seq<char>| #[trigger] count_name_total(records@, n) <= INTERVIEW_CAPACITY,
        // Every committed match pairs the candidate with an input
        // interviewer whose tier is at or above the candidate's.
        forall|k: int, a: int|
            0 <= k < records@.len() && 0 <= a < records@[k].interview_details@.len()
                ==> #[trigger] detail_ok(
                records@[k],
                a,
                old(logistics).senior_interviewers@ + old(logistics).se2_interviewers@,
            ),
        final(logistics).candidate@.len() == 0,
{
    let ghost init_c = logistics.candidate@;
    let ghost init_i = logistics.senior_interviewers@ + logistics.se2_interviewers@;
    let mut records: Vec<CandidateInterviewDetails> = Vec::new();
    proof {
        assert(forall|k: int|
            0 <= k < logistics.senior_interviewers@.len()
                ==> #[trigger] logistics.senior_interviewers@[k] == init_i[k]);
        assert(forall|k: int|
            0 <= k < logistics.se2_interviewers@.len()
                ==> #[trigger] logistics.se2_interviewers@[k] == init_i[logistics.senior_interviewers@.len() + k]);
        assert forall|k: int|
            0 <= k < logistics.senior_interviewers@.len() implies intv_ok(
            #[trigger] logistics.senior_interviewers@[k],
            records@,
            init_i,
        ) by {
            lemma_init_count_distinct(init_i, k);
        }
        assert forall|k: int|
            0 <= k < logistics.se2_interviewers@.len() implies intv_ok(
            #[trigger] logistics.se2_interviewers@[k],
            records@,
            init_i,
        ) by {
            lemma_init_count_distinct(init_i, logistics.senior_interviewers@.len() + k);
        }
        assert forall|n: Seq<char>| #[trigger] count_name_total(records@, n) <= init_count_of(
            init_i,
            n,
        ) by {
            lemma_init_count_bound(init_i, n);
        }
    }
    while logistics.candidate.len() > 0
        invariant
            intvs_ok(logistics.senior_interviewers@, records@, init_i),
            intvs_ok(logistics.se2_interviewers@, records@, init_i),
            pools_distinct(
                logistics.senior_interviewers@,
                logistics.se2_interviewers@,
                Seq::<Interviewer>::empty(),
            ),
            records_ok(records@, init_c, init_i, logistics.interviewer_candidate_map@),
            interviewer_gap_ok(records@),
            cands_ok(logistics.candidate@, records@, init_c),
            distinct_serials(logistics.candidate@),
            forall|k: int|
                0 <= k < init_c.len() ==> queue_has_serial(
                    logistics.candidate@,
                    (#[trigger] init_c[k]).serial_num,
                ) || serial_index_of(records@, init_c[k].serial_num) >= 0,
        decreases queue_weight(logistics.candidate@),
    {
        let ghost queue0 = logistics.candidate@;
        let cand_opt = logistics.get_candidate();
        if let Some(mut cand) = cand_opt {
            proof {
                assert(cand == queue0[0]);
                assert(logistics.candidate@ == queue0.drop_first());
                assert(forall|k: int|
                    0 <= k < logistics.candidate@.len() ==> #[trigger] logistics.candidate@[k]
                        == queue0[k + 1]);
                assert(cand_ok(cand, records@, init_c));
                assert(queue_weight(queue0) == cand_weight(queue0[0]) + queue_weight(
                    queue0.drop_first(),
                ));
            }
            let ghost records_before_pass = records@;
            let ghost queue1 = logistics.candidate@;
            let allocated = try_allocate_round(
                logistics,
                &mut cand,
                &mut records,
                Ghost(init_c),
                Ghost(init_i),
            );
            if allocated && cand.schedule.len() < 2 {
                proof {
                    lemma_queue_weight_push(queue1, cand);
                }
                logistics.add_candidate(cand);
                proof {
                    assert forall|k: int| 0 <= k < init_c.len() implies queue_has_serial(
                        logistics.candidate@,
                        (#[trigger] init_c[k]).serial_num,
                    ) || serial_index_of(records@, init_c[k].serial_num) >= 0 by {
                        let s = init_c[k].serial_num;
                        if queue_has_serial(queue0, s) {
                            let j = choose|j: int|
                                0 <= j < queue0.len() && (#[trigger] queue0[j]).serial_num == s;
                            if j == 0 {
                                assert(logistics.candidate@[queue1.len() as int] == cand);
                                assert(logistics.candidate@[queue1.len() as int].serial_num == s);
                            } else {
                                assert(queue1[j - 1] == queue0[j]);
                                assert(logistics.candidate@[j - 1] == queue1[j - 1]);
                            }
                        } else {
                            assert(serial_index_of(records_before_pass, s) >= 0);
                        }
                    }
                }
            } else {
                let ghost records_mid = records@;
                let ghost didx = serial_index_of(records_mid, cand.serial_num);
                proof {
                    lemma_serial_index_of_props(records_mid, cand.serial_num);
                    lemma_insert_pos_bounds(records_mid, cand.serial_num);
                }
                ensure_record(&mut records, &cand);
                proof {
                    if didx < 0 {
                        assert(cand.schedule@.len() == 0);
                        lemma_insert_empty_record(
                            records_mid,
                            records@,
                            cand,
                            logistics.interviewer_candidate_map@,
                            init_c,
                            init_i,
                        );
                        assert forall|k: int|
                            0 <= k < logistics.senior_interviewers@.len() implies intv_ok(
                            #[trigger] logistics.senior_interviewers@[k],
                            records@,
                            init_i,
                        ) by {
                            assert(intv_ok(
                                logistics.senior_interviewers@[k],
                                records_mid,
                                init_i,
                            ));
                        }
                        assert forall|k: int|
                            0 <= k < logistics.se2_interviewers@.len() implies intv_ok(
                            #[trigger] logistics.se2_interviewers@[k],
                            records@,
                            init_i,
                        ) by {
                            assert(intv_ok(logistics.se2_interviewers@[k], records_mid, init_i));
                        }
                        assert forall|k: int|
                            0 <= k < logistics.candidate@.len() implies cand_ok(
                            #[trigger] logistics.candidate@[k],
                            records@,
                            init_c,
                        ) by {
                            assert(logistics.candidate@[k].serial_num != cand.serial_num);
                            assert(cand_ok(logistics.candidate@[k], records_mid, init_c));
                        }
                    }
                    assert(serial_index_of(records@, cand.serial_num) >= 0);
                    assert forall|k: int| 0 <= k < init_c.len() implies queue_has_serial(
                        logistics.candidate@,
                        (#[trigger] init_c[k]).serial_num,
                    ) || serial_index_of(records@, init_c[k].serial_num) >= 0 by {
                        let s = init_c[k].serial_num;
                        if queue_has_serial(queue0, s) {
                            let j = choose|j: int|
                                0 <= j < queue0.len() && (#[trigger] queue0[j]).serial_num == s;
                            if j == 0 {
                                assert(s == cand.serial_num);
                            } else {
                                assert(logistics.candidate@[j - 1] == queue0[j]);
                            }
                        } else {
                            assert(serial_index_of(records_before_pass, s) >= 0);
                            assert(serial_index_of(records_mid, s) >= 0);
                        }
                    }
                }
            }
        }
    }
    proof {
        assert forall|k: int| 0 <= k < init_c.len() implies serial_index_of(
            records@,
            (#[trigger] init_c[k]).serial_num,
        ) >= 0 by {
            assert(!queue_has_serial(logistics.candidate@, init_c[k].serial_num));
        }
        assert forall|k: int, a: int, b: int|
            0 <= k < records@.len() && 0 <= a < b < records@[k].interview_details@.len() implies (
        #[trigger] records@[k].interview_details@[a]).interviewer@ != (
        #[trigger] records@[k].interview_details@[b]).interviewer@ by {
            assert(record_ok(
                records@[k],
                init_c,
                init_i,
                logistics.interviewer_candidate_map@,
            ));
        }
        assert forall|n: Seq<char>| #[trigger] count_name_total(records@, n)
            <= INTERVIEW_CAPACITY by {
            assert(forall|k: int| 0 <= k < init_i.len() ==> (#[trigger] init_i[k]).wf());
            lemma_init_count_bound(init_i, n);
        }
        assert forall|k: int, a: int|
            0 <= k < records@.len() && 0 <= a < records@[k].interview_details@.len()
                implies #[trigger] detail_ok(records@[k], a, init_i) by {
            assert(record_ok(
                records@[k],
                init_c,
                init_i,
                logistics.interviewer_candidate_map@,
            ));
        }
    }
    records
}

} // verus!
