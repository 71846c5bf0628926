//! Conversion of validated input fields into model values: experience
//! codes, round codes, and the semicolon-delimited slot-availability
//! strings (with the case-insensitive "all slots" token).

use vstd::prelude::*;
use crate::model::{Experience, InterviewRound};
use crate::slots::NUM_SLOTS;

verus! {

/// ASCII upper-case letters folded to lower case; everything else kept.
pub open spec fn ascii_lower(c: char) -> char {
    if 65 <= c as u32 && c as u32 <= 90 {
        (((c as u32) + 32) as u8) as char
    } else {
        c
    }
}

/// The string is the "all slots" token, compared ASCII-case-insensitively.
pub open spec fn is_all_token(s: Seq<char>) -> bool {
    &&& s.len() == 3
    &&& ascii_lower(s[0]) == 'a'
    &&& ascii_lower(s[1]) == 'l'
    &&& ascii_lower(s[2]) == 'l'
}

/// An ASCII decimal digit.
pub open spec fn is_digit(c: char) -> bool {
    48 <= c as u32 && c as u32 <= 57
}

/// Numeric value of one ASCII digit.
pub open spec fn digit_val(c: char) -> int {
    c as u32 - 48
}

/// The semicolon-split pieces of a string, exactly as Rust's `split(';')`
/// yields them: an empty string is one empty piece, and every `;` starts a
/// new piece.
pub open spec fn split_semis(s: Seq<char>) -> Seq<Seq<char>>
    decreases s.len(),
{
    if s.len() == 0 {
        seq![Seq::<char>::empty()]
    } else if s[0] == ';' {
        seq![Seq::<char>::empty()] + split_semis(s.drop_first())
    } else {
        let rest = split_semis(s.drop_first());
        seq![seq![s[0]] + rest[0]] + rest.drop_first()
    }
}

/// Numeric value of a digit string, most significant digit first.
pub open spec fn digits_val(p: Seq<char>) -> int
    decreases p.len(),
{
    if p.len() == 0 {
        0
    } else {
        digits_val(p.drop_last()) * 10 + digit_val(p.last())
    }
}

/// A piece made only of digits.
pub open spec fn all_digits(p: Seq<char>) -> bool {
    forall|i: int| 0 <= i < p.len() ==> is_digit(#[trigger] p[i])
}

/// A well-formed slot list: every semicolon-separated piece is a nonempty
/// digit string.
pub open spec fn wf_slot_list(s: Seq<char>) -> bool {
    forall|k: int|
        0 <= k < split_semis(s).len() ==> (#[trigger] split_semis(s)[k]).len() >= 1 && all_digits(
            split_semis(s)[k],
        )
}

/// Some piece of the slot list has this numeric value.
pub open spec fn list_has_value(s: Seq<char>, v: int) -> bool {
    exists|k: int|
        0 <= k < split_semis(s).len() && digits_val(#[trigger] split_semis(s)[k]) == v
}

/// There is always at least one piece.
proof fn lemma_split_len(s: Seq<char>)
    ensures
        split_semis(s).len() >= 1,
    decreases s.len(),
{
    if s.len() > 0 {
        lemma_split_len(s.drop_first());
    }
}

/// How the pieces grow by one character at the back: a `;` opens a new
/// empty piece, any other character extends the last piece.
proof fn lemma_split_push(s: Seq<char>, c: char)
    ensures
        c == ';' ==> split_semis(s.push(c)) =~~= split_semis(s).push(Seq::<char>::empty()),
        c != ';' ==> split_semis(s.push(c)) =~~= split_semis(s).update(
            split_semis(s).len() - 1,
            split_semis(s).last().push(c),
        ),
    decreases s.len(),
{
    lemma_split_len(s);
    if s.len() == 0 {
        let empty = Seq::<char>::empty();
        assert(s.push(c).len() == 1);
        assert(s.push(c)[0] == c);
        assert(s.push(c).drop_first() =~= empty);
        assert(split_semis(empty) == seq![empty]);
        assert(s =~= empty);
        if c == ';' {
            assert(split_semis(s.push(c)) == seq![empty] + split_semis(empty));
            assert(split_semis(s.push(c)) =~~= split_semis(s).push(empty));
        } else {
            assert(split_semis(s.push(c)) == seq![seq![c] + split_semis(empty)[0]] + split_semis(
                empty,
            ).drop_first());
            assert(seq![c] + split_semis(empty)[0] =~= seq![c]);
            assert(split_semis(empty).drop_first() =~= Seq::<Seq<char>>::empty());
            assert(split_semis(s).last().push(c) =~= seq![c]);
            assert(split_semis(s.push(c)) =~~= split_semis(s).update(
                split_semis(s).len() - 1,
                split_semis(s).last().push(c),
            ));
        }
    } else {
        let t = s.push(c);
        assert(t[0] == s[0]);
        assert(t.drop_first() =~= s.drop_first().push(c));
        lemma_split_push(s.drop_first(), c);
        lemma_split_len(s.drop_first());
        if c == ';' {
            assert(split_semis(t) =~~= split_semis(s).push(Seq::<char>::empty()));
        } else {
            assert(split_semis(t) =~~= split_semis(s).update(
                split_semis(s).len() - 1,
                split_semis(s).last().push(c),
            ));
        }
    }
}

/// In a string whose pieces are all digit strings, every character is a
/// digit or a semicolon.
proof fn lemma_digit_chars(s: Seq<char>, i: int)
    requires
        forall|k: int|
            0 <= k < split_semis(s).len() ==> all_digits(#[trigger] split_semis(s)[k]),
        0 <= i < s.len(),
    ensures
        s[i] == ';' || is_digit(s[i]),
    decreases s.len(),
{
    lemma_split_len(s);
    let rest = s.drop_first();
    lemma_split_len(rest);
    if s[0] == ';' {
        assert(forall|k: int|
            0 <= k < split_semis(rest).len() ==> #[trigger] split_semis(rest)[k] == split_semis(
                s,
            )[k + 1]);
        if i > 0 {
            lemma_digit_chars(rest, i - 1);
        }
    } else {
        assert(split_semis(s)[0] == seq![s[0]] + split_semis(rest)[0]);
        if i == 0 {
            assert(split_semis(s)[0][0] == s[0]);
            assert(is_digit(split_semis(s)[0][0]));
        } else {
            assert forall|k: int| 0 <= k < split_semis(rest).len() implies all_digits(
                #[trigger] split_semis(rest)[k],
            ) by {
                if k == 0 {
                    assert(all_digits(split_semis(s)[0]));
                    assert(forall|j: int|
                        0 <= j < split_semis(rest)[0].len() ==> #[trigger] split_semis(
                            rest,
                        )[0][j] == split_semis(s)[0][j + 1]);
                } else {
                    assert(split_semis(s)[k] == split_semis(rest)[k]);
                }
            }
            lemma_digit_chars(rest, i - 1);
        }
    }
}

/// A value clamped to the sentinel 13: slot indices above 12 all behave
/// alike (dropped), so the scanner needs no exact value beyond 12.
pub open spec fn clamp13(v: int) -> int {
    if v > 13 {
        13
    } else {
        v
    }
}

/// Decides whether the string is the "all slots" token,
/// ASCII-case-insensitively.
fn check_all_token(slots: &str) -> (r: bool)
    ensures
        r == is_all_token(slots@),
{
    let n = slots.unicode_len();
    if n != 3 {
        return false;
    }
    let c0 = lower_char(slots.get_char(0));
    let c1 = lower_char(slots.get_char(1));
    let c2 = lower_char(slots.get_char(2));
    c0 == 'a' && c1 == 'l' && c2 == 'l'
}

/// Folds one ASCII upper-case letter to lower case.
fn lower_char(c: char) -> (r: char)
    ensures
        r == ascii_lower(c),
{
    let u = c as u32;
    if 65 <= u && u <= 90 {
        ((u + 32) as u8) as char
    } else {
        c
    }
}

/// Converts a validated experience code to its tier.  `SE1` and `SE` mean
/// the lowest tier, `Senior` and `SSE` the highest; anything else is
/// rejected.
pub fn convert_to_exp(exp: &String) -> (r: Option<Experience>)
    ensures
        r == spec_convert_to_exp(exp@),
{
    if *exp == "SE1".to_owned() || *exp == "SE".to_owned() {
        Some(Experience::SE1)
    } else if *exp == "SE2".to_owned() {
        Some(Experience::SE2)
    } else if *exp == "Senior".to_owned() || *exp == "SSE".to_owned() {
        Some(Experience::Senior)
    } else {
        None
    }
}

/// Which tier an experience code names, if any.
pub open spec fn spec_convert_to_exp(s: Seq<char>) -> Option<Experience> {
    if s == "SE1"@ || s == "SE"@ {
        Some(Experience::SE1)
    } else if s == "SE2"@ {
        Some(Experience::SE2)
    } else if s == "Senior"@ || s == "SSE"@ {
        Some(Experience::Senior)
    } else {
        None
    }
}

/// Converts a validated round code to its round; anything but `R1`, `R2`
/// or `R3` is rejected.
pub fn convert_to_round(code: &String) -> (r: Option<InterviewRound>)
    ensures
        r == spec_convert_to_round(code@),
{
    if *code == "R1".to_owned() {
        Some(InterviewRound::R1)
    } else if *code == "R2".to_owned() {
        Some(InterviewRound::R2)
    } else if *code == "R3".to_owned() {
        Some(InterviewRound::R3)
    } else {
        None
    }
}

/// Which round a round code names, if any.
pub open spec fn spec_convert_to_round(s: Seq<char>) -> Option<InterviewRound> {
    if s == "R1"@ {
        Some(InterviewRound::R1)
    } else if s == "R2"@ {
        Some(InterviewRound::R2)
    } else if s == "R3"@ {
        Some(InterviewRound::R3)
    } else {
        None
    }
}

/// Converts a slot string to a 13-entry availability table.  The "all"
/// token (in any letter case) sets every entry; otherwise each
/// semicolon-delimited index in the real range sets its entry, and indices
/// above 12 are dropped.
#[verifier::loop_isolation(false)]
pub fn convert_to_slots(slots: &String) -> (r: Vec<bool>)
    requires
        is_all_token(slots@) || wf_slot_list(slots@),
    ensures
        r@.len() == NUM_SLOTS,
        is_all_token(slots@) ==> forall|j: int| 0 <= j < NUM_SLOTS ==> r@[j],
        !is_all_token(slots@) ==> forall|j: int|
            0 <= j < NUM_SLOTS ==> r@[j] == list_has_value(slots@, j),
{
    if check_all_token(slots.as_str()) {
        return crate::model::full_availability();
    }
    let s = slots.as_str();
    let n = s.unicode_len();
    let mut slot_array: Vec<bool> = Vec::new();
    let mut j: usize = 0;
    while j < NUM_SLOTS
        invariant
            slot_array@.len() == j <= NUM_SLOTS,
            forall|t: int| 0 <= t < j ==> !slot_array@[t],
        decreases NUM_SLOTS - j,
    {
        slot_array.push(false);
        j += 1;
    }
    let mut cur: usize = 0;
    let mut i: usize = 0;
    proof {
        assert(slots@.subrange(0, 0) =~= Seq::<char>::empty());
        lemma_split_len(slots@.subrange(0, 0));
    }
    while i < n
        invariant
            0 <= i <= n == slots@.len(),
            slot_array@.len() == NUM_SLOTS,
            cur <= 13,
            cur == clamp13(digits_val(split_semis(slots@.subrange(0, i as int)).last())),
            forall|t: int|
                0 <= t < NUM_SLOTS ==> slot_array@[t] == exists|k: int|
                    0 <= k < split_semis(slots@.subrange(0, i as int)).len() - 1 && digits_val(
                        #[trigger] split_semis(slots@.subrange(0, i as int))[k],
                    ) == t,
        decreases n - i,
    {
        let ghost prefix = slots@.subrange(0, i as int);
        let ghost pieces = split_semis(prefix);
        proof {
            lemma_split_len(prefix);
            assert(slots@.subrange(0, i + 1) =~= prefix.push(slots@[i as int]));
            lemma_split_push(prefix, slots@[i as int]);
            assert(forall|k: int|
                0 <= k < split_semis(slots@).len() ==> all_digits(
                    #[trigger] split_semis(slots@)[k],
                ));
            lemma_digit_chars(slots@, i as int);
        }
        let c = s.get_char(i);
        if c == ';' {
            let ghost val = digits_val(pieces.last());
            if cur <= 12 {
                slot_array[cur] = true;
            }
            proof {
                let newpieces = split_semis(slots@.subrange(0, i + 1));
                assert(newpieces =~~= pieces.push(Seq::<char>::empty()));
                assert(newpieces.last() =~= Seq::<char>::empty());
                assert(digits_val(Seq::<char>::empty()) == 0);
                assert forall|t: int| 0 <= t < NUM_SLOTS implies slot_array@[t] == exists|k: int|
                    0 <= k < newpieces.len() - 1 && digits_val(#[trigger] newpieces[k]) == t by {
                    assert(forall|k: int| 0 <= k < pieces.len() ==> newpieces[k] == pieces[k]);
                    if slot_array@[t] {
                        if cur <= 12 && t == cur {
                            assert(digits_val(newpieces[pieces.len() - 1]) == val);
                            assert(clamp13(val) == cur);
                            assert(val == t);
                        } else {
                            let k = choose|k: int|
                                0 <= k < pieces.len() - 1 && digits_val(#[trigger] pieces[k])
                                    == t;
                            assert(digits_val(newpieces[k]) == t);
                        }
                    } else {
                        assert forall|k: int|
                            0 <= k < newpieces.len() - 1 implies digits_val(
                            #[trigger] newpieces[k],
                        ) != t by {
                            if k < pieces.len() - 1 {
                                assert(newpieces[k] == pieces[k]);
                            } else {
                                assert(newpieces[k] == pieces.last());
                                assert(clamp13(val) == cur);
                            }
                        }
                    }
                }
            }
            cur = 0;
        } else {
            proof {
                assert(is_digit(c));
            }
            let d = (c as u32 - 48) as usize;
            let t = cur * 10 + d;
            let newcur = if t > 13 {
                13
            } else {
                t
            };
            proof {
                let newpieces = split_semis(slots@.subrange(0, i + 1));
                let oldlast = pieces.last();
                assert(newpieces =~~= pieces.update(pieces.len() - 1, oldlast.push(c)));
                assert(newpieces.last() == oldlast.push(c));
                assert(oldlast.push(c).drop_last() =~= oldlast);
                assert(digits_val(oldlast.push(c)) == digits_val(oldlast) * 10 + digit_val(c));
                assert(newcur == clamp13(digits_val(oldlast.push(c)))) by {
                    assert(cur == clamp13(digits_val(oldlast)));
                }
                assert(forall|k: int|
                    0 <= k < pieces.len() - 1 ==> #[trigger] newpieces[k] == pieces[k]);
                assert forall|t2: int| 0 <= t2 < NUM_SLOTS implies slot_array@[t2] == exists|
                    k: int,
                |
                    0 <= k < newpieces.len() - 1 && digits_val(#[trigger] newpieces[k]) == t2 by {
                    if slot_array@[t2] {
                        let k = choose|k: int|
                            0 <= k < pieces.len() - 1 && digits_val(#[trigger] pieces[k]) == t2;
                        assert(digits_val(newpieces[k]) == t2);
                    }
                }
            }
            cur = newcur;
        }
        i += 1;
    }
    proof {
        assert(slots@.subrange(0, n as int) =~= slots@);
    }
    let ghost pieces = split_semis(slots@);
    proof {
        lemma_split_len(slots@);
    }
    let ghost val = digits_val(pieces.last());
    if cur <= 12 {
        slot_array[cur] = true;
    }
    proof {
        assert forall|t: int| 0 <= t < NUM_SLOTS implies slot_array@[t] == list_has_value(
            slots@,
            t,
        ) by {
            if slot_array@[t] {
                if cur <= 12 && t == cur {
                    assert(clamp13(val) == cur);
                    assert(digits_val(pieces[pieces.len() - 1]) == t);
                } else {
                    let k = choose|k: int|
                        0 <= k < pieces.len() - 1 && digits_val(#[trigger] pieces[k]) == t;
                    assert(digits_val(pieces[k]) == t);
                }
            } else {
                assert forall|k: int| 0 <= k < pieces.len() implies digits_val(
                    #[trigger] pieces[k],
                ) != t by {
                    if k == pieces.len() - 1 {
                        assert(clamp13(val) == cur);
                    }
                }
            }
        }
    }
    slot_array
}

} // verus!
