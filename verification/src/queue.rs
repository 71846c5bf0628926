//! The logistics queue manager: the three ordered pools (senior
//! interviewers, SE2 interviewers, candidates), the fairness-ordering
//! policy, the interviewer merge policy, and the map that forbids a repeat
//! pairing.

use vstd::prelude::*;
use crate::model::{
    first_slot_key, tier_rank, Candidate, Experience, Interviewer, InterviewPair,
};

verus! {

/// `x` inserted into `s` directly before the first element that `x` is
/// strictly less than; with a sorted `s` this is one stable insertion-sort
/// step.
pub open spec fn insert_sorted<T>(x: T, s: Seq<T>, lt: spec_fn(T, T) -> bool) -> Seq<T>
    decreases s.len(),
{
    if s.len() == 0 {
        seq![x]
    } else if lt(x, s[0]) {
        seq![x] + s
    } else {
        seq![s[0]] + insert_sorted(x, s.drop_first(), lt)
    }
}

/// Stable insertion sort of `s` under the strict order `lt`: elements are
/// inserted left to right, each behind the ones it does not strictly
/// precede, so equal-keyed elements keep their input order.
pub open spec fn insertion_sort<T>(s: Seq<T>, lt: spec_fn(T, T) -> bool) -> Seq<T>
    decreases s.len(),
{
    if s.len() == 0 {
        Seq::empty()
    } else {
        insert_sorted(s.last(), insertion_sort(s.drop_last(), lt), lt)
    }
}

/// Where one insertion lands: if `x` is not strictly less than anything
/// before position `j` and strictly less than the element at `j` (if any),
/// it is inserted exactly at `j`.
proof fn lemma_insert_sorted_position<T>(x: T, s: Seq<T>, lt: spec_fn(T, T) -> bool, j: int)
    requires
        0 <= j <= s.len(),
        forall|k: int| 0 <= k < j ==> !lt(x, #[trigger] s[k]),
        j < s.len() ==> lt(x, s[j]),
    ensures
        insert_sorted(x, s, lt) == s.subrange(0, j) + seq![x] + s.subrange(j, s.len() as int),
    decreases j,
{
    if j == 0 {
        if s.len() == 0 {
            assert(insert_sorted(x, s, lt) =~= s.subrange(0, 0) + seq![x] + s.subrange(0, 0));
        } else {
            assert(insert_sorted(x, s, lt) =~= s.subrange(0, 0) + seq![x] + s.subrange(
                0,
                s.len() as int,
            ));
        }
    } else {
        let rest = s.drop_first();
        assert(forall|k: int| 0 <= k < j - 1 ==> !lt(x, #[trigger] rest[k]));
        lemma_insert_sorted_position(x, rest, lt, j - 1);
        assert(insert_sorted(x, s, lt) =~= s.subrange(0, j) + seq![x] + s.subrange(
            j,
            s.len() as int,
        ));
    }
}

/// No inversion under `lt`: no element is strictly less than an earlier
/// one.
pub open spec fn sorted_by<T>(s: Seq<T>, lt: spec_fn(T, T) -> bool) -> bool {
    forall|a: int, b: int| 0 <= a < b < s.len() ==> !lt(#[trigger] s[b], #[trigger] s[a])
}

/// One insertion adds exactly one element.
proof fn lemma_insert_sorted_len<T>(x: T, s: Seq<T>, lt: spec_fn(T, T) -> bool)
    ensures
        insert_sorted(x, s, lt).len() == s.len() + 1,
    decreases s.len(),
{
    if s.len() > 0 && !lt(x, s[0]) {
        lemma_insert_sorted_len(x, s.drop_first(), lt);
    }
}

/// Every element of the result of one insertion is the inserted one or one
/// of the old ones.
proof fn lemma_insert_sorted_membership<T>(x: T, s: Seq<T>, lt: spec_fn(T, T) -> bool, idx: int)
    requires
        0 <= idx < s.len() + 1,
    ensures
        insert_sorted(x, s, lt).len() == s.len() + 1,
        insert_sorted(x, s, lt)[idx] == x || exists|k: int|
            0 <= k < s.len() && insert_sorted(x, s, lt)[idx] == #[trigger] s[k],
    decreases s.len(),
{
    lemma_insert_sorted_len(x, s, lt);
    let r = insert_sorted(x, s, lt);
    if s.len() == 0 {
        assert(r[0] == x);
    } else if lt(x, s[0]) {
        if idx > 0 {
            assert(r[idx] == s[idx - 1]);
        }
    } else {
        let rest = s.drop_first();
        if idx == 0 {
            assert(r[0] == s[0]);
        } else {
            lemma_insert_sorted_membership(x, rest, lt, idx - 1);
            let rr = insert_sorted(x, rest, lt);
            assert(r[idx] == rr[idx - 1]);
            if rr[idx - 1] != x {
                let k = choose|k: int| 0 <= k < rest.len() && rr[idx - 1] == #[trigger] rest[k];
                assert(r[idx] == s[k + 1]);
            }
        }
    }
}

/// Inserting into a sorted sequence keeps it sorted, for any strict order
/// that is asymmetric and transitive.
proof fn lemma_insert_sorted_keeps_sorted<T>(x: T, s: Seq<T>, lt: spec_fn(T, T) -> bool)
    requires
        sorted_by(s, lt),
        forall|p: T, q: T| #[trigger] lt(p, q) ==> !lt(q, p),
        forall|p: T, q: T, r: T| #[trigger] lt(p, q) && #[trigger] lt(q, r) ==> lt(p, r),
    ensures
        sorted_by(insert_sorted(x, s, lt), lt),
    decreases s.len(),
{
    let r = insert_sorted(x, s, lt);
    if s.len() == 0 {
    } else if lt(x, s[0]) {
        assert forall|a: int, b: int| 0 <= a < b < r.len() implies !lt(
            #[trigger] r[b],
            #[trigger] r[a],
        ) by {
            if a == 0 {
                assert(r[b] == s[b - 1]);
                if lt(s[b - 1], x) {
                    assert(lt(s[b - 1], s[0]));
                }
            } else {
                assert(r[a] == s[a - 1]);
                assert(r[b] == s[b - 1]);
            }
        }
    } else {
        let rest = s.drop_first();
        assert(forall|j: int| 0 <= j < rest.len() ==> #[trigger] rest[j] == s[j + 1]);
        lemma_insert_sorted_keeps_sorted(x, rest, lt);
        lemma_insert_sorted_len(x, rest, lt);
        let rr = insert_sorted(x, rest, lt);
        assert forall|a: int, b: int| 0 <= a < b < r.len() implies !lt(
            #[trigger] r[b],
            #[trigger] r[a],
        ) by {
            if a == 0 {
                assert(r[b] == rr[b - 1]);
                lemma_insert_sorted_membership(x, rest, lt, b - 1);
                if rr[b - 1] != x {
                    let k = choose|k: int|
                        0 <= k < rest.len() && rr[b - 1] == #[trigger] rest[k];
                    assert(rr[b - 1] == s[k + 1]);
                }
            } else {
                assert(r[a] == rr[a - 1]);
                assert(r[b] == rr[b - 1]);
            }
        }
    }
}

/// Insertion sort under an asymmetric, transitive strict order yields a
/// sorted sequence.
proof fn lemma_insertion_sort_sorted<T>(s: Seq<T>, lt: spec_fn(T, T) -> bool)
    requires
        forall|p: T, q: T| #[trigger] lt(p, q) ==> !lt(q, p),
        forall|p: T, q: T, r: T| #[trigger] lt(p, q) && #[trigger] lt(q, r) ==> lt(p, r),
    ensures
        sorted_by(insertion_sort(s, lt), lt),
    decreases s.len(),
{
    if s.len() > 0 {
        lemma_insertion_sort_sorted(s.drop_last(), lt);
        lemma_insert_sorted_keeps_sorted(s.last(), insertion_sort(s.drop_last(), lt), lt);
    }
}

/// The interviewer order — descending remaining capacity, then ascending
/// first-available-slot — leaves every sorted pool free of inversions.
pub proof fn lemma_interviewer_sort_sorted(s: Seq<Interviewer>)
    ensures
        sorted_by(insertion_sort(s, intv_lt()), intv_lt()),
{
    let f = intv_lt();
    assert forall|p: Interviewer, q: Interviewer| #[trigger] f(p, q) implies !f(q, p) by {
        assert(intv_key_lt(p, q));
    }
    assert forall|p: Interviewer, q: Interviewer, r: Interviewer|
        #[trigger] f(p, q) && #[trigger] f(q, r) implies f(p, r) by {
        assert(intv_key_lt(p, q) && intv_key_lt(q, r));
        assert(intv_key_lt(p, r));
    }
    lemma_insertion_sort_sorted(s, f);
}

/// The candidate order — descending experience tier, then ascending
/// first-available-slot — leaves the sorted queue free of inversions.
pub proof fn lemma_candidate_sort_sorted(s: Seq<Candidate>)
    ensures
        sorted_by(insertion_sort(s, cand_lt()), cand_lt()),
{
    let f = cand_lt();
    assert forall|p: Candidate, q: Candidate| #[trigger] f(p, q) implies !f(q, p) by {
        assert(cand_key_lt(p, q));
    }
    assert forall|p: Candidate, q: Candidate, r: Candidate|
        #[trigger] f(p, q) && #[trigger] f(q, r) implies f(p, r) by {
        assert(cand_key_lt(p, q) && cand_key_lt(q, r));
        assert(cand_key_lt(p, r));
    }
    lemma_insertion_sort_sorted(s, f);
}

/// Strict sorting order for interviewer pools: descending remaining
/// capacity first (load balancing), then ascending first-available-slot
/// index (earlier-available preferred).
pub open spec fn intv_key_lt(a: Interviewer, b: Interviewer) -> bool {
    ||| a.interviews_count > b.interviews_count
    ||| (a.interviews_count == b.interviews_count && first_slot_key(a.availability@)
        < first_slot_key(b.availability@))
}

/// The interviewer order as a closure, for use with the sorting specs.
pub open spec fn intv_lt() -> spec_fn(Interviewer, Interviewer) -> bool {
    |a: Interviewer, b: Interviewer| intv_key_lt(a, b)
}

/// Strict sorting order for the candidate queue: descending experience
/// tier first (higher tiers have fewer eligible interviewers), then
/// ascending first-available-slot index.
pub open spec fn cand_key_lt(a: Candidate, b: Candidate) -> bool {
    ||| tier_rank(a.experience) > tier_rank(b.experience)
    ||| (tier_rank(a.experience) == tier_rank(b.experience) && first_slot_key(a.availability@)
        < first_slot_key(b.availability@))
}

/// The candidate order as a closure, for use with the sorting specs.
pub open spec fn cand_lt() -> spec_fn(Candidate, Candidate) -> bool {
    |a: Candidate, b: Candidate| cand_key_lt(a, b)
}

/// Decides `intv_key_lt` for two interviewers.
fn intv_lt_exec(a: &Interviewer, b: &Interviewer) -> (r: bool)
    requires
        a.wf(),
        b.wf(),
    ensures
        r == intv_key_lt(*a, *b),
{
    if a.interviews_count > b.interviews_count {
        true
    } else if a.interviews_count == b.interviews_count {
        a.first_slot_key() < b.first_slot_key()
    } else {
        false
    }
}

/// Decides `cand_key_lt` for two candidates.
fn cand_lt_exec(a: &Candidate, b: &Candidate) -> (r: bool)
    requires
        a.wf(),
        b.wf(),
    ensures
        r == cand_key_lt(*a, *b),
{
    if a.experience.rank() > b.experience.rank() {
        true
    } else if a.experience.rank() == b.experience.rank() {
        a.first_slot_key() < b.first_slot_key()
    } else {
        false
    }
}

/// Stable-sorts an interviewer pool by `intv_key_lt`.
#[verifier::loop_isolation(false)]
fn sort_interviewer_vec(v: &mut Vec<Interviewer>)
    requires
        forall|i: int| 0 <= i < old(v)@.len() ==> (#[trigger] old(v)@[i]).wf(),
    ensures
        final(v)@ == insertion_sort(old(v)@, intv_lt()),
        forall|i: int| 0 <= i < final(v)@.len() ==> (#[trigger] final(v)@[i]).wf(),
{
    let ghost input = v@;
    let mut out: Vec<Interviewer> = Vec::new();
    while v.len() > 0
        invariant
            v@.len() <= input.len(),
            v@ == input.subrange(input.len() - v@.len(), input.len() as int),
            out@ == insertion_sort(input.subrange(0, input.len() - v@.len()), intv_lt()),
            forall|i: int| 0 <= i < v@.len() ==> (#[trigger] v@[i]).wf(),
            forall|i: int| 0 <= i < out@.len() ==> (#[trigger] out@[i]).wf(),
        decreases v@.len(),
    {
        let ghost k = input.len() - v@.len();
        let ghost out_before = out@;
        let x = v.remove(0);
        assert(x == input[k]);
        assert(v@ =~= input.subrange(input.len() - v@.len(), input.len() as int));
        let mut j: usize = 0;
        while j < out.len() && !intv_lt_exec(&x, &out[j])
            invariant
                j <= out@.len(),
                out@ == out_before,
                forall|k2: int| 0 <= k2 < j ==> !intv_key_lt(x, #[trigger] out@[k2]),
            decreases out@.len() - j,
        {
            j += 1;
        }
        proof {
            lemma_insert_sorted_position(x, out@, intv_lt(), j as int);
        }
        out.insert(j, x);
        proof {
            assert(out@ =~= insert_sorted(x, out_before, intv_lt()));
            let t = input.subrange(0, k + 1);
            assert(t.last() == input[k]);
            assert(t.drop_last() =~= input.subrange(0, k));
            assert(out@ == insertion_sort(input.subrange(0, k + 1), intv_lt()));
        }
    }
    proof {
        assert(input.subrange(0, input.len() as int) =~= input);
    }
    *v = out;
}

/// Stable-sorts the candidate queue by `cand_key_lt`.
#[verifier::loop_isolation(false)]
fn sort_candidate_vec(v: &mut Vec<Candidate>)
    requires
        forall|i: int| 0 <= i < old(v)@.len() ==> (#[trigger] old(v)@[i]).wf(),
    ensures
        final(v)@ == insertion_sort(old(v)@, cand_lt()),
        forall|i: int| 0 <= i < final(v)@.len() ==> (#[trigger] final(v)@[i]).wf(),
{
    let ghost input = v@;
    let mut out: Vec<Candidate> = Vec::new();
    while v.len() > 0
        invariant
            v@.len() <= input.len(),
            v@ == input.subrange(input.len() - v@.len(), input.len() as int),
            out@ == insertion_sort(input.subrange(0, input.len() - v@.len()), cand_lt()),
            forall|i: int| 0 <= i < v@.len() ==> (#[trigger] v@[i]).wf(),
            forall|i: int| 0 <= i < out@.len() ==> (#[trigger] out@[i]).wf(),
        decreases v@.len(),
    {
        let ghost k = input.len() - v@.len();
        let ghost out_before = out@;
        let x = v.remove(0);
        assert(x == input[k]);
        assert(v@ =~= input.subrange(input.len() - v@.len(), input.len() as int));
        let mut j: usize = 0;
        while j < out.len() && !cand_lt_exec(&x, &out[j])
            invariant
                j <= out@.len(),
                out@ == out_before,
                forall|k2: int| 0 <= k2 < j ==> !cand_key_lt(x, #[trigger] out@[k2]),
            decreases out@.len() - j,
        {
            j += 1;
        }
        proof {
            lemma_insert_sorted_position(x, out@, cand_lt(), j as int);
        }
        out.insert(j, x);
        proof {
            assert(out@ =~= insert_sorted(x, out_before, cand_lt()));
            let t = input.subrange(0, k + 1);
            assert(t.last() == input[k]);
            assert(t.drop_last() =~= input.subrange(0, k));
            assert(out@ == insertion_sort(input.subrange(0, k + 1), cand_lt()));
        }
    }
    proof {
        assert(input.subrange(0, input.len() as int) =~= input);
    }
    *v = out;
}

/// Pops the front of an interviewer pool, if any.
fn pop_front_interviewer(v: &mut Vec<Interviewer>) -> (r: Option<Interviewer>)
    ensures
        old(v)@.len() == 0 ==> r is None && final(v)@ == old(v)@,
        old(v)@.len() > 0 ==> r == Some(old(v)@[0]) && final(v)@ == old(v)@.drop_first(),
{
    if v.len() == 0 {
        None
    } else {
        let x = v.remove(0);
        proof {
            assert(v@ =~= old(v)@.drop_first());
        }
        Some(x)
    }
}

/// Pops the front of the candidate queue, if any.
fn pop_front_candidate(v: &mut Vec<Candidate>) -> (r: Option<Candidate>)
    ensures
        old(v)@.len() == 0 ==> r is None && final(v)@ == old(v)@,
        old(v)@.len() > 0 ==> r == Some(old(v)@[0]) && final(v)@ == old(v)@.drop_first(),
{
    if v.len() == 0 {
        None
    } else {
        let x = v.remove(0);
        proof {
            assert(v@ =~= old(v)@.drop_first());
        }
        Some(x)
    }
}

/// There is a recorded pairing of this interviewer with this candidate.
pub open spec fn has_pair(
    pairs: Seq<InterviewPair>,
    interviewer: Seq<char>,
    candidate: Seq<char>,
) -> bool {
    exists|k: int|
        0 <= k < pairs.len() && (#[trigger] pairs[k]).interviewer@ == interviewer
            && pairs[k].candidate@ == candidate
}

/// The merge policy for non-senior candidates, as a choice of pool: pop
/// from the senior pool when the SE2 pool is empty, when the senior front
/// has strictly higher remaining capacity, or — only at equal capacity —
/// when it is available strictly earlier; otherwise pop from the SE2 pool.
/// Senior candidates always draw from the senior pool.
pub open spec fn spec_pick_senior(
    senior: Seq<Interviewer>,
    se2: Seq<Interviewer>,
    exp: Experience,
) -> bool {
    if exp == Experience::Senior {
        true
    } else if se2.len() == 0 {
        true
    } else if senior.len() == 0 {
        false
    } else if senior[0].interviews_count > se2[0].interviews_count {
        true
    } else if senior[0].interviews_count == se2[0].interviews_count && first_slot_key(
        senior[0].availability@,
    ) < first_slot_key(se2[0].availability@) {
        true
    } else {
        false
    }
}

/// Owns all not-yet-fully-scheduled candidates and all not-yet-exhausted
/// interviewers, partitioned by experience tier, plus the record of which
/// interviewer has already met which candidate.
#[derive(Debug)]
pub struct InterviewLogistics {
    pub senior_interviewers: Vec<Interviewer>,
    pub se2_interviewers: Vec<Interviewer>,
    pub candidate: Vec<Candidate>,
    pub interviewer_candidate_map: Vec<InterviewPair>,
}

impl InterviewLogistics {
    /// Every pooled entity has a well-formed availability table.
    pub open spec fn wf(self) -> bool {
        &&& forall|i: int|
            0 <= i < self.senior_interviewers@.len() ==> (
            #[trigger] self.senior_interviewers@[i]).wf()
        &&& forall|i: int|
            0 <= i < self.se2_interviewers@.len() ==> (#[trigger] self.se2_interviewers@[i]).wf()
        &&& forall|i: int| 0 <= i < self.candidate@.len() ==> (#[trigger] self.candidate@[i]).wf()
    }

    /// An empty queue manager.
    pub fn new() -> (r: InterviewLogistics)
        ensures
            r.senior_interviewers@ == Seq::<Interviewer>::empty(),
            r.se2_interviewers@ == Seq::<Interviewer>::empty(),
            r.candidate@ == Seq::<Candidate>::empty(),
            r.interviewer_candidate_map@ == Seq::<InterviewPair>::empty(),
    {
        InterviewLogistics {
            senior_interviewers: Vec::new(),
            se2_interviewers: Vec::new(),
            candidate: Vec::new(),
            interviewer_candidate_map: Vec::new(),
        }
    }

    /// Admits an interviewer into the pool matching its tier.  An SE1-tier
    /// interviewer is rejected and excluded from all pools.
    pub fn add_interviewer(&mut self, interviewer: Interviewer)
        ensures
            final(self).candidate == old(self).candidate,
            final(self).interviewer_candidate_map == old(self).interviewer_candidate_map,
            interviewer.interview_experience == Experience::Senior ==> final(self).senior_interviewers@ == old(self).senior_interviewers@.push(interviewer) && final(self).se2_interviewers == old(self).se2_interviewers,
            interviewer.interview_experience == Experience::SE2 ==> final(self).se2_interviewers@
                == old(self).se2_interviewers@.push(interviewer) && final(self).senior_interviewers
                == old(self).senior_interviewers,
            interviewer.interview_experience == Experience::SE1 ==> final(self).senior_interviewers
                == old(self).senior_interviewers && final(self).se2_interviewers == old(self).se2_interviewers,
    {
        match interviewer.interview_experience {
            Experience::Senior => {
                self.senior_interviewers.push(interviewer);
            },
            Experience::SE2 => {
                self.se2_interviewers.push(interviewer);
            },
            Experience::SE1 => {
                // Rejected at admission time: no pool serves SE1-tier
                // interviewers.
            },
        }
    }

    /// Appends a candidate to the back of the candidate queue (used both
    /// for the initial load and for re-queueing after a successful round).
    pub fn add_candidate(&mut self, candidate: Candidate)
        ensures
            final(self).candidate@ == old(self).candidate@.push(candidate),
            final(self).senior_interviewers == old(self).senior_interviewers,
            final(self).se2_interviewers == old(self).se2_interviewers,
            final(self).interviewer_candidate_map == old(self).interviewer_candidate_map,
    {
        self.candidate.push(candidate);
    }

    /// Stable-sorts each interviewer pool by descending remaining capacity,
    /// then by ascending first-available-slot index.
    pub fn sort_interviewers(&mut self)
        requires
            old(self).wf(),
        ensures
            final(self).senior_interviewers@ == insertion_sort(
                old(self).senior_interviewers@,
                intv_lt(),
            ),
            final(self).se2_interviewers@ == insertion_sort(
                old(self).se2_interviewers@,
                intv_lt(),
            ),
            final(self).candidate == old(self).candidate,
            final(self).interviewer_candidate_map == old(self).interviewer_candidate_map,
            final(self).wf(),
    {
        sort_interviewer_vec(&mut self.senior_interviewers);
        sort_interviewer_vec(&mut self.se2_interviewers);
    }

    /// Stable-sorts the candidate queue by descending experience tier, then
    /// by ascending first-available-slot index.
    pub fn sort_candidates(&mut self)
        requires
            old(self).wf(),
        ensures
            final(self).candidate@ == insertion_sort(old(self).candidate@, cand_lt()),
            final(self).senior_interviewers == old(self).senior_interviewers,
            final(self).se2_interviewers == old(self).se2_interviewers,
            final(self).interviewer_candidate_map == old(self).interviewer_candidate_map,
            final(self).wf(),
    {
        sort_candidate_vec(&mut self.candidate);
    }

    /// Pops the next interviewer to try for a candidate of tier `exp`,
    /// applying the merge policy across the two pools.
    pub fn get_interviewer(&mut self, exp: Experience) -> (r: Option<Interviewer>)
        requires
            old(self).wf(),
        ensures
            final(self).candidate == old(self).candidate,
            final(self).interviewer_candidate_map == old(self).interviewer_candidate_map,
            final(self).wf(),
            spec_pick_senior(old(self).senior_interviewers@, old(self).se2_interviewers@, exp)
                ==> final(self).se2_interviewers == old(self).se2_interviewers && (if old(self).senior_interviewers@.len() == 0 {
                r is None && final(self).senior_interviewers@ == old(self).senior_interviewers@
            } else {
                r == Some(old(self).senior_interviewers@[0]) && final(self).senior_interviewers@
                    == old(self).senior_interviewers@.drop_first()
            }),
            !spec_pick_senior(old(self).senior_interviewers@, old(self).se2_interviewers@, exp)
                ==> final(self).senior_interviewers == old(self).senior_interviewers && (if old(self).se2_interviewers@.len() == 0 {
                r is None && final(self).se2_interviewers@ == old(self).se2_interviewers@
            } else {
                r == Some(old(self).se2_interviewers@[0]) && final(self).se2_interviewers@ == old(self).se2_interviewers@.drop_first()
            }),
    {
        match exp {
            Experience::Senior => pop_front_interviewer(&mut self.senior_interviewers),
            Experience::SE2 | Experience::SE1 => {
                if self.se2_interviewers.is_empty() {
                    pop_front_interviewer(&mut self.senior_interviewers)
                } else if self.senior_interviewers.is_empty() {
                    pop_front_interviewer(&mut self.se2_interviewers)
                } else {
                    if self.senior_interviewers[0].interviews_count
                        > self.se2_interviewers[0].interviews_count {
                        pop_front_interviewer(&mut self.senior_interviewers)
                    } else if self.senior_interviewers[0].interviews_count
                        == self.se2_interviewers[0].interviews_count
                        && self.senior_interviewers[0].first_slot_key()
                        < self.se2_interviewers[0].first_slot_key() {
                        pop_front_interviewer(&mut self.senior_interviewers)
                    } else {
                        pop_front_interviewer(&mut self.se2_interviewers)
                    }
                }
            },
        }
    }

    /// Pops the front of the candidate queue, if any.
    pub fn get_candidate(&mut self) -> (r: Option<Candidate>)
        ensures
            final(self).senior_interviewers == old(self).senior_interviewers,
            final(self).se2_interviewers == old(self).se2_interviewers,
            final(self).interviewer_candidate_map == old(self).interviewer_candidate_map,
            old(self).candidate@.len() == 0 ==> r is None && final(self).candidate@ == old(self).candidate@,
            old(self).candidate@.len() > 0 ==> r == Some(old(self).candidate@[0]) && final(self).candidate@ == old(self).candidate@.drop_first(),
    {
        pop_front_candidate(&mut self.candidate)
    }

    /// Has this interviewer already met this candidate in this run?
    pub fn is_already_paired(&self, interviewer_name: &String, candidate_name: &String) -> (r:
        bool)
        ensures
            r == has_pair(self.interviewer_candidate_map@, interviewer_name@, candidate_name@),
    {
        let mut k: usize = 0;
        while k < self.interviewer_candidate_map.len()
            invariant
                k <= self.interviewer_candidate_map@.len(),
                forall|j: int|
                    0 <= j < k ==> !((#[trigger] self.interviewer_candidate_map@[j]).interviewer@
                        == interviewer_name@ && self.interviewer_candidate_map@[j].candidate@
                        == candidate_name@),
            decreases self.interviewer_candidate_map@.len() - k,
        {
            let entry = &self.interviewer_candidate_map[k];
            if entry.interviewer == *interviewer_name && entry.candidate == *candidate_name {
                return true;
            }
            k += 1;
        }
        false
    }

    /// Records that this interviewer has now met this candidate; the map
    /// grows monotonically and never shrinks.
    pub fn record_pair(&mut self, interviewer_name: &String, candidate_name: &String)
        ensures
            final(self).senior_interviewers == old(self).senior_interviewers,
            final(self).se2_interviewers == old(self).se2_interviewers,
            final(self).candidate == old(self).candidate,
            final(self).interviewer_candidate_map@ == old(self).interviewer_candidate_map@.push(
                (InterviewPair {
                    interviewer: *interviewer_name,
                    candidate: *candidate_name,
                }),
            ),
    {
        let pair = InterviewPair {
            interviewer: interviewer_name.clone(),
            candidate: candidate_name.clone(),
        };
        self.interviewer_candidate_map.push(pair);
    }
}

} // verus!
