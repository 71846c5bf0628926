//! The output-record store: one `CandidateInterviewDetails` per candidate,
//! kept ordered by candidate serial number, grown incrementally as matches
//! commit, plus the counting functions that bound how often one interviewer
//! appears across the whole output.

use vstd::prelude::*;
use crate::model::{Candidate, CandidateInterviewDetails, InterviewDetail};

verus! {

/// Records are strictly ordered by candidate serial number (so serials are
/// also unique).
pub open spec fn sorted_by_serial(records: Seq<CandidateInterviewDetails>) -> bool {
    forall|a: int, b: int|
        0 <= a < b < records.len() ==> (#[trigger] records[a]).candidate.serial_num < (
        #[trigger] records[b]).candidate.serial_num
}

/// Index of the first record for `serial`, or -1 if there is none.
pub open spec fn serial_index_of(records: Seq<CandidateInterviewDetails>, serial: u8) -> int
    decreases records.len(),
{
    if records.len() == 0 {
        -1
    } else if records[0].candidate.serial_num == serial {
        0
    } else {
        let r = serial_index_of(records.drop_first(), serial);
        if r < 0 {
            -1
        } else {
            r + 1
        }
    }
}

/// Position where a record for `serial` belongs in serial order: the number
/// of records with a smaller serial.
pub open spec fn insert_pos(records: Seq<CandidateInterviewDetails>, serial: u8) -> int
    decreases records.len(),
{
    if records.len() == 0 {
        0
    } else if records[0].candidate.serial_num < serial {
        1 + insert_pos(records.drop_first(), serial)
    } else {
        0
    }
}

/// What `serial_index_of` means index by index.
pub proof fn lemma_serial_index_of_props(records: Seq<CandidateInterviewDetails>, serial: u8)
    ensures
        serial_index_of(records, serial) >= 0 ==> {
            let idx = serial_index_of(records, serial);
            &&& 0 <= idx < records.len()
            &&& records[idx].candidate.serial_num == serial
        },
        serial_index_of(records, serial) < 0 ==> forall|j: int|
            0 <= j < records.len() ==> (#[trigger] records[j]).candidate.serial_num != serial,
    decreases records.len(),
{
    if records.len() > 0 && records[0].candidate.serial_num != serial {
        lemma_serial_index_of_props(records.drop_first(), serial);
        assert(forall|j: int|
            1 <= j < records.len() ==> #[trigger] records[j] == records.drop_first()[j - 1]);
    }
}

/// A scan that rules out the first `k` records pins `serial_index_of` down.
pub proof fn lemma_serial_index_first(
    records: Seq<CandidateInterviewDetails>,
    serial: u8,
    k: int,
)
    requires
        0 <= k <= records.len(),
        forall|j: int| 0 <= j < k ==> (#[trigger] records[j]).candidate.serial_num != serial,
        k < records.len() ==> records[k].candidate.serial_num == serial,
    ensures
        k < records.len() ==> serial_index_of(records, serial) == k,
        k == records.len() ==> serial_index_of(records, serial) == -1,
    decreases k,
{
    if records.len() > 0 {
        if k == 0 {
            if records[0].candidate.serial_num != serial {
                lemma_serial_index_first(records.drop_first(), serial, 0);
            }
        } else {
            let rest = records.drop_first();
            assert(forall|j: int|
                0 <= j < k - 1 ==> (#[trigger] rest[j]).candidate.serial_num != serial);
            lemma_serial_index_first(rest, serial, k - 1);
        }
    }
}

/// A scan that passes the first `k` smaller serials pins `insert_pos` down.
pub proof fn lemma_insert_pos_first(records: Seq<CandidateInterviewDetails>, serial: u8, k: int)
    requires
        0 <= k <= records.len(),
        forall|j: int| 0 <= j < k ==> (#[trigger] records[j]).candidate.serial_num < serial,
        k < records.len() ==> records[k].candidate.serial_num >= serial,
    ensures
        insert_pos(records, serial) == k,
    decreases k,
{
    if records.len() > 0 && k > 0 {
        let rest = records.drop_first();
        assert(forall|j: int|
            0 <= j < k - 1 ==> (#[trigger] rest[j]).candidate.serial_num < serial);
        lemma_insert_pos_first(rest, serial, k - 1);
    }
}

/// The serial-ordered position always lies within the store.
pub proof fn lemma_insert_pos_bounds(records: Seq<CandidateInterviewDetails>, serial: u8)
    ensures
        0 <= insert_pos(records, serial) <= records.len(),
    decreases records.len(),
{
    if records.len() > 0 && records[0].candidate.serial_num < serial {
        lemma_insert_pos_bounds(records.drop_first(), serial);
    }
}

/// Replacing a record with one of the same serial moves no index.
pub proof fn lemma_serial_index_update(
    records: Seq<CandidateInterviewDetails>,
    idx: int,
    rec: CandidateInterviewDetails,
    serial: u8,
)
    requires
        0 <= idx < records.len(),
        rec.candidate.serial_num == records[idx].candidate.serial_num,
    ensures
        serial_index_of(records.update(idx, rec), serial) == serial_index_of(records, serial),
    decreases records.len(),
{
    let upd = records.update(idx, rec);
    if idx == 0 {
        if records[0].candidate.serial_num != serial {
            assert(upd.drop_first() =~= records.drop_first());
        }
    } else {
        assert(upd.drop_first() =~= records.drop_first().update(idx - 1, rec));
        lemma_serial_index_update(records.drop_first(), idx - 1, rec, serial);
    }
}

/// Inserting a record for another serial keeps every present serial
/// present, every absent serial absent, and the record each present serial
/// points to.
pub proof fn lemma_serial_index_insert(
    records: Seq<CandidateInterviewDetails>,
    pos: int,
    rec: CandidateInterviewDetails,
    serial: u8,
)
    requires
        0 <= pos <= records.len(),
        rec.candidate.serial_num != serial,
    ensures
        serial_index_of(records, serial) < 0 ==> serial_index_of(
            records.insert(pos, rec),
            serial,
        ) < 0,
        serial_index_of(records, serial) >= 0 ==> {
            let new_idx = serial_index_of(records.insert(pos, rec), serial);
            &&& new_idx >= 0
            &&& 0 <= new_idx < records.insert(pos, rec).len()
            &&& records.insert(pos, rec)[new_idx] == records[serial_index_of(records, serial)]
        },
    decreases records.len(),
{
    let ins = records.insert(pos, rec);
    lemma_serial_index_of_props(records, serial);
    lemma_serial_index_of_props(ins, serial);
    if pos == 0 {
        assert(ins.drop_first() =~= records);
    } else {
        assert(ins[0] == records[0]);
        assert(ins.drop_first() =~= records.drop_first().insert(pos - 1, rec));
        if records[0].candidate.serial_num != serial {
            lemma_serial_index_insert(records.drop_first(), pos - 1, rec, serial);
        }
    }
}

/// How often `name` interviews within one detail list.
pub open spec fn count_name_in(details: Seq<InterviewDetail>, name: Seq<char>) -> nat
    decreases details.len(),
{
    if details.len() == 0 {
        0nat
    } else {
        count_name_in(details.drop_last(), name) + if details.last().interviewer@ == name {
            1nat
        } else {
            0nat
        }
    }
}

/// How often `name` interviews across the whole output.
pub open spec fn count_name_total(
    records: Seq<CandidateInterviewDetails>,
    name: Seq<char>,
) -> nat
    decreases records.len(),
{
    if records.len() == 0 {
        0nat
    } else {
        count_name_total(records.drop_last(), name) + count_name_in(
            records.last().interview_details@,
            name,
        )
    }
}

/// Appending one detail raises exactly its interviewer's count by one.
pub proof fn lemma_count_in_push(details: Seq<InterviewDetail>, d: InterviewDetail, name: Seq<char>)
    ensures
        count_name_in(details.push(d), name) == count_name_in(details, name) + if d.interviewer@
            == name {
            1nat
        } else {
            0nat
        },
{
    assert(details.push(d).drop_last() =~= details);
}

/// Replacing one record changes each name's total by the difference its
/// detail list contributes.
pub proof fn lemma_count_total_update(
    records: Seq<CandidateInterviewDetails>,
    idx: int,
    rec: CandidateInterviewDetails,
    name: Seq<char>,
)
    requires
        0 <= idx < records.len(),
    ensures
        count_name_total(records.update(idx, rec), name) + count_name_in(
            records[idx].interview_details@,
            name,
        ) == count_name_total(records, name) + count_name_in(rec.interview_details@, name),
    decreases records.len(),
{
    let upd = records.update(idx, rec);
    if idx == records.len() - 1 {
        assert(upd.drop_last() =~= records.drop_last());
        assert(upd.last() == rec);
    } else {
        assert(upd.drop_last() =~= records.drop_last().update(idx, rec));
        assert(upd.last() == records.last());
        lemma_count_total_update(records.drop_last(), idx, rec, name);
    }
}

/// Inserting a record adds exactly its own contribution to each name's
/// total.
pub proof fn lemma_count_total_insert(
    records: Seq<CandidateInterviewDetails>,
    pos: int,
    rec: CandidateInterviewDetails,
    name: Seq<char>,
)
    requires
        0 <= pos <= records.len(),
    ensures
        count_name_total(records.insert(pos, rec), name) == count_name_total(records, name)
            + count_name_in(rec.interview_details@, name),
    decreases records.len(),
{
    let ins = records.insert(pos, rec);
    if pos == records.len() {
        assert(ins.drop_last() =~= records);
        assert(ins.last() == rec);
    } else {
        assert(ins.drop_last() =~= records.drop_last().insert(pos, rec));
        assert(ins.last() == records.last());
        lemma_count_total_insert(records.drop_last(), pos, rec, name);
    }
}

/// The freshly inserted output record for `c`, holding the given details.
pub open spec fn new_record_for(rec: CandidateInterviewDetails, c: Candidate) -> bool {
    &&& rec.candidate.serial_num == c.serial_num
    &&& rec.candidate.name@ == c.name@
    &&& rec.candidate.experience == c.experience
    &&& rec.candidate.availability@ == c.availability@
    &&& rec.candidate.schedule@ == c.schedule@
}

/// Appends `detail` to `candidate`'s output record, creating the record
/// (with the candidate as it now stands) at its serial-ordered position if
/// this is the candidate's first committed interview.
#[verifier::loop_isolation(false)]
pub fn push_detail(
    records: &mut Vec<CandidateInterviewDetails>,
    candidate: &Candidate,
    detail: InterviewDetail,
)
    requires
        sorted_by_serial(old(records)@),
    ensures
        sorted_by_serial(final(records)@),
        serial_index_of(old(records)@, candidate.serial_num) >= 0 ==> {
            let idx = serial_index_of(old(records)@, candidate.serial_num);
            &&& final(records)@.len() == old(records)@.len()
            &&& forall|j: int|
                0 <= j < old(records)@.len() && j != idx ==> final(records)@[j] == old(
                    records,
                )@[j]
            &&& final(records)@[idx].candidate == old(records)@[idx].candidate
            &&& final(records)@[idx].interview_details@ == old(
                records,
            )@[idx].interview_details@.push(detail)
            &&& serial_index_of(final(records)@, candidate.serial_num) == idx
        },
        serial_index_of(old(records)@, candidate.serial_num) < 0 ==> {
            let pos = insert_pos(old(records)@, candidate.serial_num);
            &&& final(records)@.len() == old(records)@.len() + 1
            &&& forall|j: int| 0 <= j < pos ==> final(records)@[j] == old(records)@[j]
            &&& forall|j: int|
                pos < j < final(records)@.len() ==> final(records)@[j] == old(records)@[j - 1]
            &&& new_record_for(final(records)@[pos], *candidate)
            &&& final(records)@[pos].interview_details@ == seq![detail]
            &&& serial_index_of(final(records)@, candidate.serial_num) == pos
        },
{
    let serial = candidate.serial_num;
    let mut k: usize = 0;
    while k < records.len() && records[k].candidate.serial_num != serial
        invariant
            0 <= k <= records@.len(),
            forall|j: int| 0 <= j < k ==> (#[trigger] records@[j]).candidate.serial_num != serial,
        decreases records@.len() - k,
    {
        k += 1;
    }
    proof {
        lemma_serial_index_first(records@, serial, k as int);
    }
    if k < records.len() {
        let ghost before = records@;
        let mut rec = records.remove(k);
        rec.interview_details.push(detail);
        records.insert(k, rec);
        proof {
            assert(records@ =~= before.update(k as int, records@[k as int]));
            lemma_serial_index_update(before, k as int, records@[k as int], serial);
        }
    } else {
        let ghost before = records@;
        let mut pos: usize = 0;
        while pos < records.len() && records[pos].candidate.serial_num < serial
            invariant
                0 <= pos <= records@.len(),
                forall|j: int|
                    0 <= j < pos ==> (#[trigger] records@[j]).candidate.serial_num < serial,
            decreases records@.len() - pos,
        {
            pos += 1;
        }
        proof {
            lemma_serial_index_first(before, serial, before.len() as int);
            lemma_serial_index_of_props(before, serial);
            if pos < records.len() {
                assert(records@[pos as int].candidate.serial_num != serial);
            }
            lemma_insert_pos_first(before, serial, pos as int);
        }
        let mut details: Vec<InterviewDetail> = Vec::new();
        details.push(detail);
        let rec = CandidateInterviewDetails {
            candidate: candidate.clone(),
            interview_details: details,
        };
        records.insert(pos, rec);
        proof {
            assert(details@ =~= seq![detail]);
            assert forall|a: int, b: int| 0 <= a < b < records@.len() implies (
                #[trigger] records@[a]).candidate.serial_num < (
            #[trigger] records@[b]).candidate.serial_num by {
                if a == pos {
                    assert(records@[b] == before[b - 1]);
                } else if b == pos {
                    assert(records@[a] == before[a]);
                }
            }
            lemma_serial_index_first(records@, serial, pos as int);
        }
    }
}

/// Makes sure `candidate` has an output record, creating an empty one at
/// its serial-ordered position if no match ever committed for it.
#[verifier::loop_isolation(false)]
pub fn ensure_record(records: &mut Vec<CandidateInterviewDetails>, candidate: &Candidate)
    requires
        sorted_by_serial(old(records)@),
    ensures
        sorted_by_serial(final(records)@),
        serial_index_of(old(records)@, candidate.serial_num) >= 0 ==> final(records)@ == old(
            records,
        )@,
        serial_index_of(old(records)@, candidate.serial_num) < 0 ==> {
            let pos = insert_pos(old(records)@, candidate.serial_num);
            &&& final(records)@.len() == old(records)@.len() + 1
            &&& forall|j: int| 0 <= j < pos ==> final(records)@[j] == old(records)@[j]
            &&& forall|j: int|
                pos < j < final(records)@.len() ==> final(records)@[j] == old(records)@[j - 1]
            &&& new_record_for(final(records)@[pos], *candidate)
            &&& final(records)@[pos].interview_details@ == Seq::<InterviewDetail>::empty()
            &&& serial_index_of(final(records)@, candidate.serial_num) == pos
        },
{
    let serial = candidate.serial_num;
    let mut k: usize = 0;
    while k < records.len() && records[k].candidate.serial_num != serial
        invariant
            0 <= k <= records@.len(),
            forall|j: int| 0 <= j < k ==> (#[trigger] records@[j]).candidate.serial_num != serial,
        decreases records@.len() - k,
    {
        k += 1;
    }
    proof {
        lemma_serial_index_first(records@, serial, k as int);
    }
    if k == records.len() {
        let ghost before = records@;
        let mut pos: usize = 0;
        while pos < records.len() && records[pos].candidate.serial_num < serial
            invariant
                0 <= pos <= records@.len(),
                forall|j: int|
                    0 <= j < pos ==> (#[trigger] records@[j]).candidate.serial_num < serial,
            decreases records@.len() - pos,
        {
            pos += 1;
        }
        proof {
            lemma_serial_index_first(before, serial, before.len() as int);
            lemma_serial_index_of_props(before, serial);
            if pos < records.len() {
                assert(records@[pos as int].candidate.serial_num != serial);
            }
            lemma_insert_pos_first(before, serial, pos as int);
        }
        let rec = CandidateInterviewDetails {
            candidate: candidate.clone(),
            interview_details: Vec::new(),
        };
        records.insert(pos, rec);
        proof {
            assert forall|a: int, b: int| 0 <= a < b < records@.len() implies (
                #[trigger] records@[a]).candidate.serial_num < (
            #[trigger] records@[b]).candidate.serial_num by {
                if a == pos {
                    assert(records@[b] == before[b - 1]);
                } else if b == pos {
                    assert(records@[a] == before[a]);
                }
            }
            lemma_serial_index_first(records@, serial, pos as int);
        }
    }
}

} // verus!
