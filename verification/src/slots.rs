//! The slot model: 13 ordinal slots per day (slot 0 is the "no slot"
//! sentinel), and the mapping from a slot index to its wall-clock start time.
//!
//! Slot `n` (for `1 <= n <= 12`) starts at hour `8 + ceil(n/2)`, with minute
//! 30 when `n` is even and minute 0 when `n` is odd, rendered in 24-hour
//! wall-clock form where hours at or before 8 are treated as post-noon.

use vstd::prelude::*;

verus! {

/// Length of an availability table: slots 1 through 12 are real half-hour
/// interview starts; index 0 is unused and means "no slot".
pub const NUM_SLOTS: usize = 13;

/// Wall-clock hour in 24-hour form: interviews start at 9, so any hour at or
/// before 8 must be post-meridian.
pub open spec fn spec_to_24_hour(hour: int) -> int {
    if hour > 8 {
        hour
    } else {
        hour + 12
    }
}

/// Converts an interview hour to 24-hour wall-clock form.
pub fn convert_to_24_hour_format(hour: u8) -> (r: u8)
    requires
        hour <= 243,
    ensures
        r == spec_to_24_hour(hour as int),
{
    if hour > 8 {
        hour
    } else {
        hour + 12
    }
}

/// Starting hour of slot `slot`, in 24-hour wall-clock form.
pub open spec fn spec_slot_hour(slot: int) -> int {
    spec_to_24_hour(8 + (slot + 1) / 2)
}

/// Starting minute of slot `slot`: on the half hour for even slots, on the
/// hour for odd ones.
pub open spec fn spec_slot_minute(slot: int) -> int {
    if slot % 2 == 0 {
        30
    } else {
        0
    }
}

/// The human-readable `HH:MM` rendering of slot `slot`.
pub open spec fn spec_slot_time(slot: int) -> Seq<char> {
    if slot == 1 {
        "09:00"@
    } else if slot == 2 {
        "09:30"@
    } else if slot == 3 {
        "10:00"@
    } else if slot == 4 {
        "10:30"@
    } else if slot == 5 {
        "11:00"@
    } else if slot == 6 {
        "11:30"@
    } else if slot == 7 {
        "12:00"@
    } else if slot == 8 {
        "12:30"@
    } else if slot == 9 {
        "13:00"@
    } else if slot == 10 {
        "13:30"@
    } else if slot == 11 {
        "14:00"@
    } else {
        "14:30"@
    }
}

/// The ASCII digit for `d`.
pub open spec fn spec_digit_char(d: int) -> char {
    if d == 0 {
        '0'
    } else if d == 1 {
        '1'
    } else if d == 2 {
        '2'
    } else if d == 3 {
        '3'
    } else if d == 4 {
        '4'
    } else if d == 5 {
        '5'
    } else if d == 6 {
        '6'
    } else if d == 7 {
        '7'
    } else if d == 8 {
        '8'
    } else {
        '9'
    }
}

/// The slot-time string really is the zero-padded `HH:MM` rendering of the
/// slot's wall-clock hour and minute.
pub proof fn lemma_slot_time_encodes_clock(slot: int)
    requires
        1 <= slot <= 12,
    ensures
        spec_slot_time(slot).len() == 5,
        spec_slot_time(slot)[0] == spec_digit_char(spec_slot_hour(slot) / 10),
        spec_slot_time(slot)[1] == spec_digit_char(spec_slot_hour(slot) % 10),
        spec_slot_time(slot)[2] == ':',
        spec_slot_time(slot)[3] == spec_digit_char(spec_slot_minute(slot) / 10),
        spec_slot_time(slot)[4] == spec_digit_char(spec_slot_minute(slot) % 10),
{
    reveal_strlit("09:00");
    reveal_strlit("09:30");
    reveal_strlit("10:00");
    reveal_strlit("10:30");
    reveal_strlit("11:00");
    reveal_strlit("11:30");
    reveal_strlit("12:00");
    reveal_strlit("12:30");
    reveal_strlit("13:00");
    reveal_strlit("13:30");
    reveal_strlit("14:00");
    reveal_strlit("14:30");
}

/// Renders the slot's start time as `HH:MM`.
pub fn slot_time_string(slot: u8) -> (r: String)
    requires
        1 <= slot <= 12,
    ensures
        r@ == spec_slot_time(slot as int),
{
    let text: &str = if slot == 1 {
        "09:00"
    } else if slot == 2 {
        "09:30"
    } else if slot == 3 {
        "10:00"
    } else if slot == 4 {
        "10:30"
    } else if slot == 5 {
        "11:00"
    } else if slot == 6 {
        "11:30"
    } else if slot == 7 {
        "12:00"
    } else if slot == 8 {
        "12:30"
    } else if slot == 9 {
        "13:00"
    } else if slot == 10 {
        "13:30"
    } else if slot == 11 {
        "14:00"
    } else {
        "14:30"
    };
    text.to_owned()
}

} // verus!
