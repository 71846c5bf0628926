//! Shaping of finalized records into tabular rows: a candidate with no
//! committed interview gets a bare name row, one interview fills the
//! first-round columns, and two interviews sit side by side in one row.
//! The shadow column is left blank.

use vstd::prelude::*;
use crate::model::CandidateInterviewDetails;

verus! {

/// Builds the output row for one finalized record: the candidate's name,
/// then for each committed interview its interviewer, a blank shadow
/// column, and the human-readable slot time.
pub fn interview_details_row(record: &CandidateInterviewDetails) -> (row: Vec<String>)
    ensures
        record.interview_details@.len() == 0 ==> row@.len() == 1,
        record.interview_details@.len() == 1 ==> row@.len() == 4,
        record.interview_details@.len() >= 2 ==> row@.len() == 7,
        row@[0]@ == record.candidate.name@,
        record.interview_details@.len() >= 1 ==> row@[1]@
            == record.interview_details@[0].interviewer@ && row@[2]@ == Seq::<char>::empty()
            && row@[3]@ == record.interview_details@[0].slot_human_friendly@,
        record.interview_details@.len() >= 2 ==> row@[4]@
            == record.interview_details@[1].interviewer@ && row@[5]@ == Seq::<char>::empty()
            && row@[6]@ == record.interview_details@[1].slot_human_friendly@,
{
    let mut row: Vec<String> = Vec::new();
    row.push(record.candidate.name.clone());
    if record.interview_details.len() == 0 {
        return row;
    }
    let first = &record.interview_details[0];
    row.push(first.interviewer.clone());
    row.push(String::new());
    row.push(first.slot_human_friendly.clone());
    if record.interview_details.len() == 1 {
        return row;
    }
    let second = &record.interview_details[1];
    row.push(second.interviewer.clone());
    row.push(String::new());
    row.push(second.slot_human_friendly.clone());
    row
}

} // verus!
