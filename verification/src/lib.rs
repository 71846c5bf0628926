//! Greedy interview scheduling engine.
//!
//! The library pairs job candidates with eligible interviewers across up to
//! two interview rounds, subject to mutual time-slot availability, a fixed
//! per-interviewer workload cap, experience-tier eligibility, buffer gaps
//! around booked slots, and a no-repeat-interviewer rule.  All inputs are
//! known up front; the engine is a deterministic batch planner.

pub mod engine;
pub mod matching;
pub mod model;
pub mod output;
pub mod parse;
pub mod queue;
pub mod records;
pub mod slots;
