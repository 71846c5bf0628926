use interview_scheduler::engine::{commit_match, run_allocation};
use interview_scheduler::matching::{can_interview, match_slot, MatchOutcome};
use interview_scheduler::model::{Candidate, Experience, InterviewDetail, InterviewRound,
    Interviewer};
use interview_scheduler::output::interview_details_row;
use interview_scheduler::parse::{convert_to_exp, convert_to_round, convert_to_slots};
use interview_scheduler::queue::InterviewLogistics;
use interview_scheduler::slots::{convert_to_24_hour_format, slot_time_string};

fn avail(spec: &str) -> Vec<bool> {
    convert_to_slots(&String::from(spec))
}

fn candidate(serial: u8, name: &str, tier: Experience, slots: &str) -> Candidate {
    Candidate::new(serial, String::from(name), tier, avail(slots))
}

fn interviewer(name: &str, tier: Experience, slots: &str, ceiling: InterviewRound) -> Interviewer {
    Interviewer::new(String::from(name), tier, avail(slots), ceiling)
}

#[test]
fn slots_all_token_sets_everything() {
    for token in ["all", "ALL", "All", "aLl"] {
        let v = avail(token);
        assert_eq!(v.len(), 13);
        assert!(v.iter().all(|b| *b));
    }
}

#[test]
fn slots_list_sets_exactly_the_indices() {
    let v = avail("1;2;3");
    let expected = [
        false, true, true, true, false, false, false, false, false, false, false, false, false,
    ];
    assert_eq!(v, expected.to_vec());
}

#[test]
fn slots_out_of_range_indices_are_dropped() {
    let v = avail("0;5;13;100");
    let mut expected = vec![false; 13];
    expected[0] = true;
    expected[5] = true;
    assert_eq!(v, expected);
}

#[test]
fn experience_codes() {
    assert_eq!(convert_to_exp(&String::from("SE1")), Some(Experience::SE1));
    assert_eq!(convert_to_exp(&String::from("SE")), Some(Experience::SE1));
    assert_eq!(convert_to_exp(&String::from("SE2")), Some(Experience::SE2));
    assert_eq!(convert_to_exp(&String::from("Senior")), Some(Experience::Senior));
    assert_eq!(convert_to_exp(&String::from("SSE")), Some(Experience::Senior));
    assert_eq!(convert_to_exp(&String::from("se2")), None);
    assert_eq!(convert_to_exp(&String::from("Principal")), None);
}

#[test]
fn round_codes() {
    assert_eq!(convert_to_round(&String::from("R1")), Some(InterviewRound::R1));
    assert_eq!(convert_to_round(&String::from("R2")), Some(InterviewRound::R2));
    assert_eq!(convert_to_round(&String::from("R3")), Some(InterviewRound::R3));
    assert_eq!(convert_to_round(&String::from("R4")), None);
}

#[test]
fn slot_times_render_zero_padded() {
    assert_eq!(slot_time_string(1), "09:00");
    assert_eq!(slot_time_string(2), "09:30");
    assert_eq!(slot_time_string(5), "11:00");
    assert_eq!(slot_time_string(7), "12:00");
    assert_eq!(slot_time_string(12), "14:30");
}

#[test]
fn hours_at_or_before_eight_are_post_noon() {
    assert_eq!(convert_to_24_hour_format(9), 9);
    assert_eq!(convert_to_24_hour_format(14), 14);
    assert_eq!(convert_to_24_hour_format(8), 20);
    assert_eq!(convert_to_24_hour_format(1), 13);
}

#[test]
fn match_slot_lowest_index_wins() {
    assert_eq!(match_slot(&avail("all"), &avail("1;2;3")), 1);
    assert_eq!(match_slot(&avail("4;9"), &avail("2;9;4")), 4);
    assert_eq!(match_slot(&avail("1;2"), &avail("3;4")), 0);
}

#[test]
fn predicate_ineligible_when_interviewer_tier_below() {
    let c = candidate(1, "Ann", Experience::Senior, "all");
    let i = interviewer("Bob", Experience::SE2, "all", InterviewRound::R3);
    assert_eq!(can_interview(&c, &i), MatchOutcome::Ineligible);
}

#[test]
fn predicate_exhausted_when_no_capacity() {
    let c = candidate(1, "Ann", Experience::SE1, "all");
    let mut i = interviewer("Bob", Experience::SE2, "all", InterviewRound::R3);
    i.interviews_count = 0;
    assert_eq!(can_interview(&c, &i), MatchOutcome::Exhausted);
}

#[test]
fn predicate_round_ceiling() {
    let mut c = candidate(1, "Ann", Experience::SE1, "all");
    c.schedule.push(4);
    let i = interviewer("Bob", Experience::SE2, "all", InterviewRound::R1);
    assert_eq!(can_interview(&c, &i), MatchOutcome::RoundCeilingExceeded);
}

#[test]
fn predicate_no_common_slot() {
    let c = candidate(1, "Ann", Experience::SE1, "1;2");
    let i = interviewer("Bob", Experience::SE2, "5;6", InterviewRound::R3);
    assert_eq!(can_interview(&c, &i), MatchOutcome::NoCommonSlot);
}

#[test]
fn predicate_match_picks_lowest_common_slot() {
    let c = candidate(1, "Ann", Experience::SE2, "3;7");
    let i = interviewer("Bob", Experience::Senior, "7;3", InterviewRound::R3);
    assert_eq!(can_interview(&c, &i), MatchOutcome::Match(3));
}

#[test]
fn commit_blocks_buffer_slots_on_both_parties() {
    let mut c = candidate(1, "Ann", Experience::SE2, "all");
    let mut i = interviewer("Bob", Experience::SE2, "all", InterviewRound::R3);
    commit_match(&mut c, &mut i, 5);
    assert_eq!(c.schedule, vec![5]);
    assert_eq!(i.schedule, vec![5]);
    assert_eq!(i.interviews_count, 2);
    for j in 0..13usize {
        let blocked = (3..=7).contains(&j);
        assert_eq!(c.availability[j], !blocked);
        assert_eq!(i.availability[j], !blocked);
    }
}

#[test]
fn commit_clamps_buffer_at_the_edges() {
    let mut c = candidate(1, "Ann", Experience::SE2, "all");
    let mut i = interviewer("Bob", Experience::SE2, "all", InterviewRound::R3);
    commit_match(&mut c, &mut i, 1);
    for j in 0..13usize {
        let blocked = (1..=3).contains(&j);
        assert_eq!(c.availability[j], !blocked, "slot {j}");
    }
    assert!(c.availability[0]);
}

#[test]
fn se1_interviewers_are_rejected_at_admission() {
    let mut logistics = InterviewLogistics::new();
    logistics.add_interviewer(interviewer("Zed", Experience::SE1, "all", InterviewRound::R1));
    assert!(logistics.senior_interviewers.is_empty());
    assert!(logistics.se2_interviewers.is_empty());
}

#[test]
fn interviewer_sort_prefers_capacity_then_earliest_slot() {
    let mut logistics = InterviewLogistics::new();
    let mut worked = interviewer("Worked", Experience::SE2, "1;2", InterviewRound::R3);
    worked.interviews_count = 1;
    let late = interviewer("Late", Experience::SE2, "9", InterviewRound::R3);
    let early = interviewer("Early", Experience::SE2, "2", InterviewRound::R3);
    logistics.add_interviewer(worked);
    logistics.add_interviewer(late);
    logistics.add_interviewer(early);
    logistics.sort_interviewers();
    let names: Vec<&str> =
        logistics.se2_interviewers.iter().map(|i| i.name.as_str()).collect();
    assert_eq!(names, vec!["Early", "Late", "Worked"]);
}

#[test]
fn interviewer_sort_is_stable_on_equal_keys() {
    let mut logistics = InterviewLogistics::new();
    logistics.add_interviewer(interviewer("First", Experience::SE2, "4", InterviewRound::R3));
    logistics.add_interviewer(interviewer("Second", Experience::SE2, "4", InterviewRound::R3));
    logistics.sort_interviewers();
    let names: Vec<&str> =
        logistics.se2_interviewers.iter().map(|i| i.name.as_str()).collect();
    assert_eq!(names, vec!["First", "Second"]);
}

#[test]
fn candidate_sort_prefers_higher_tier_then_earliest_slot() {
    let mut logistics = InterviewLogistics::new();
    logistics.add_candidate(candidate(1, "JuniorEarly", Experience::SE1, "1"));
    logistics.add_candidate(candidate(2, "MidLate", Experience::SE2, "8"));
    logistics.add_candidate(candidate(3, "MidEarly", Experience::SE2, "2"));
    logistics.add_candidate(candidate(4, "Top", Experience::Senior, "9"));
    logistics.sort_candidates();
    let names: Vec<&str> = logistics.candidate.iter().map(|c| c.name.as_str()).collect();
    assert_eq!(names, vec!["Top", "MidEarly", "MidLate", "JuniorEarly"]);
}

#[test]
fn merge_policy_prefers_senior_with_higher_capacity() {
    let mut logistics = InterviewLogistics::new();
    let mut se2 = interviewer("Mid", Experience::SE2, "1", InterviewRound::R3);
    se2.interviews_count = 2;
    logistics.add_interviewer(se2);
    logistics.add_interviewer(interviewer("Top", Experience::Senior, "5", InterviewRound::R3));
    let got = logistics.get_interviewer(Experience::SE2).unwrap();
    assert_eq!(got.name, "Top");
}

#[test]
fn merge_policy_capacity_beats_earlier_slot() {
    // The SE2 front with strictly higher remaining capacity wins even
    // though the senior front is available earlier: the slot tie-break
    // applies only at equal capacity.
    let mut logistics = InterviewLogistics::new();
    logistics.add_interviewer(interviewer("Mid", Experience::SE2, "5", InterviewRound::R3));
    let mut top = interviewer("Top", Experience::Senior, "1", InterviewRound::R3);
    top.interviews_count = 1;
    logistics.add_interviewer(top);
    let got = logistics.get_interviewer(Experience::SE2).unwrap();
    assert_eq!(got.name, "Mid");
    assert_eq!(logistics.senior_interviewers.len(), 1);
}

#[test]
fn merge_policy_defaults_to_se2_on_equal_keys() {
    let mut logistics = InterviewLogistics::new();
    logistics.add_interviewer(interviewer("Mid", Experience::SE2, "5", InterviewRound::R3));
    logistics.add_interviewer(interviewer("Top", Experience::Senior, "5", InterviewRound::R3));
    let got = logistics.get_interviewer(Experience::SE1).unwrap();
    assert_eq!(got.name, "Mid");
}

#[test]
fn merge_policy_senior_candidates_draw_only_seniors() {
    let mut logistics = InterviewLogistics::new();
    logistics.add_interviewer(interviewer("Mid", Experience::SE2, "1", InterviewRound::R3));
    assert!(logistics.get_interviewer(Experience::Senior).is_none());
}

#[test]
fn detail_carries_rendered_time() {
    let d = InterviewDetail::new(String::from("Bob"), 5, InterviewRound::R1);
    assert_eq!(d.interviewer, "Bob");
    assert_eq!(d.slot, 5);
    assert_eq!(d.slot_human_friendly, "11:00");
    assert_eq!(d.round, InterviewRound::R1);
}

fn run(
    candidates: Vec<Candidate>,
    interviewers: Vec<Interviewer>,
) -> Vec<interview_scheduler::model::CandidateInterviewDetails> {
    let mut logistics = InterviewLogistics::new();
    for i in interviewers {
        logistics.add_interviewer(i);
    }
    for c in candidates {
        logistics.add_candidate(c);
    }
    logistics.sort_interviewers();
    logistics.sort_candidates();
    run_allocation(&mut logistics)
}

#[test]
fn lone_senior_pair_yields_exactly_one_round() {
    // One senior candidate free only at slot 5; one senior interviewer free
    // at slots 4, 5 and 6 with a two-round ceiling and full capacity.  The
    // first pass books slot 5; the second pass finds the pairing already
    // recorded and no other senior interviewer, so the record keeps exactly
    // one entry.
    let records = run(
        vec![candidate(1, "Ann", Experience::Senior, "5")],
        vec![interviewer("Ivy", Experience::Senior, "4;5;6", InterviewRound::R2)],
    );
    assert_eq!(records.len(), 1);
    assert_eq!(records[0].interview_details.len(), 1);
    let d = &records[0].interview_details[0];
    assert_eq!(d.interviewer, "Ivy");
    assert_eq!(d.slot, 5);
    assert_eq!(d.slot_human_friendly, "11:00");
    assert_eq!(d.round, InterviewRound::R1);
}

#[test]
fn fully_available_candidate_gets_lowest_slot() {
    let records = run(
        vec![candidate(1, "Ann", Experience::SE2, "all")],
        vec![interviewer("Ivy", Experience::SE2, "1;2;3", InterviewRound::R1)],
    );
    assert_eq!(records.len(), 1);
    assert_eq!(records[0].interview_details.len(), 1);
    assert_eq!(records[0].interview_details[0].slot, 1);
}

#[test]
fn capacity_one_interviewer_serves_only_the_first_sorted_candidate() {
    // Two SE2 candidates compete for one SE2 interviewer with capacity 1.
    // Equal tier, so the earlier-available candidate sorts first and is
    // served; the other ends with zero rounds.
    let mut dan = interviewer("Dan", Experience::SE2, "all", InterviewRound::R3);
    dan.interviews_count = 1;
    let records = run(
        vec![
            candidate(1, "Bea", Experience::SE2, "2;3"),
            candidate(2, "Cal", Experience::SE2, "1;5"),
        ],
        vec![dan],
    );
    assert_eq!(records.len(), 2);
    // Records are ordered by serial: Bea then Cal.
    assert_eq!(records[0].candidate.name, "Bea");
    assert_eq!(records[0].interview_details.len(), 0);
    assert_eq!(records[1].candidate.name, "Cal");
    assert_eq!(records[1].interview_details.len(), 1);
    assert_eq!(records[1].interview_details[0].slot, 1);
}

#[test]
fn rerun_on_identical_input_is_identical() {
    let build = || {
        (
            vec![
                candidate(3, "Ann", Experience::Senior, "5;6;9"),
                candidate(1, "Bea", Experience::SE2, "all"),
                candidate(2, "Cal", Experience::SE1, "2;3;4"),
            ],
            vec![
                interviewer("Ivy", Experience::Senior, "all", InterviewRound::R2),
                interviewer("Jon", Experience::SE2, "1;2;3;4;5", InterviewRound::R2),
                interviewer("Kim", Experience::Senior, "4;5;6;7;8", InterviewRound::R1),
            ],
        )
    };
    let (c1, i1) = build();
    let (c2, i2) = build();
    let first = run(c1, i1);
    let second = run(c2, i2);
    assert_eq!(first, second);
}

#[test]
fn schedule_respects_every_cap_and_rule() {
    let inputs_i = vec![
        ("Ivy", Experience::Senior),
        ("Jon", Experience::SE2),
        ("Kim", Experience::Senior),
    ];
    let records = run(
        vec![
            candidate(1, "Ann", Experience::Senior, "all"),
            candidate(2, "Bea", Experience::SE2, "all"),
            candidate(3, "Cal", Experience::SE1, "all"),
            candidate(4, "Dee", Experience::SE2, "1;2"),
        ],
        vec![
            interviewer("Ivy", Experience::Senior, "all", InterviewRound::R3),
            interviewer("Jon", Experience::SE2, "all", InterviewRound::R3),
            interviewer("Kim", Experience::Senior, "1;2;3;4", InterviewRound::R3),
        ],
    );
    // One record per candidate, ordered by serial.
    assert_eq!(records.len(), 4);
    for (k, rec) in records.iter().enumerate() {
        assert_eq!(rec.candidate.serial_num as usize, k + 1);
        // No candidate gets more than two rounds.
        assert!(rec.interview_details.len() <= 2);
        // No interviewer repeats within a record, rounds are in order, and
        // booked slots keep a full hour's gap.
        for (a, d) in rec.interview_details.iter().enumerate() {
            assert!((1..=12).contains(&d.slot));
            let expected_round =
                if a == 0 { InterviewRound::R1 } else { InterviewRound::R2 };
            assert_eq!(d.round, expected_round);
            // Tier rule: the interviewer's tier covers the candidate's.
            let tier = inputs_i
                .iter()
                .find(|(n, _)| *n == d.interviewer.as_str())
                .map(|(_, t)| *t)
                .unwrap();
            assert!(tier >= rec.candidate.experience);
            for other in &rec.interview_details[..a] {
                assert_ne!(other.interviewer, d.interviewer);
                let gap = (other.slot as i32 - d.slot as i32).abs();
                assert!(gap >= 3);
            }
        }
    }
    // No interviewer exceeds its capacity of three.
    for (name, _) in &inputs_i {
        let total: usize = records
            .iter()
            .map(|r| {
                r.interview_details.iter().filter(|d| d.interviewer.as_str() == *name).count()
            })
            .sum();
        assert!(total <= 3);
    }
}

#[test]
fn unmatched_candidate_still_gets_an_empty_record() {
    let records = run(vec![candidate(7, "Solo", Experience::Senior, "all")], vec![]);
    assert_eq!(records.len(), 1);
    assert_eq!(records[0].candidate.name, "Solo");
    assert!(records[0].interview_details.is_empty());
}

#[test]
fn output_rows_have_the_tabular_shapes() {
    let records = run(
        vec![
            candidate(1, "Ann", Experience::SE2, "all"),
            candidate(2, "Bea", Experience::SE2, "12"),
        ],
        vec![interviewer("Ivy", Experience::Senior, "1;5;9", InterviewRound::R3)],
    );
    // Ann is served first and books slot 1; the re-pairing ban then keeps
    // Ivy from a second round with her, and Bea shares no slot with Ivy.
    let row0 = interview_details_row(&records[0]);
    assert_eq!(row0[0], "Ann");
    assert_eq!(row0.len(), 1 + 3 * records[0].interview_details.len());
    if records[0].interview_details.len() >= 1 {
        assert_eq!(row0[1], records[0].interview_details[0].interviewer);
        assert_eq!(row0[2], "");
        assert_eq!(row0[3], records[0].interview_details[0].slot_human_friendly);
    }
    let row1 = interview_details_row(&records[1]);
    assert_eq!(row1[0], "Bea");
}
