//! Recording identity.
//!
//! A [`RecordingId`] identifies one fingerprintable audio artefact. Several
//! metadata rows (title, artist, album) may point at the same recording.
use vstd::prelude::*;

use crate::text::{chars_of, law_numbers_are_read_digit_by_digit, parsed_number, string_of};

verus! {

/// Identity of one recording of the catalog.
#[derive(Debug, Clone, Copy, PartialEq, Eq, Hash, PartialOrd, Ord, Structural)]
pub struct RecordingId(pub u32);

/// Decimal digits of a number, most significant first.
pub open spec fn decimal(n: nat) -> Seq<char>
    decreases n,
{
    if n < 10 {
        seq![digit(n)]
    } else {
        decimal(n / 10).push(digit(n % 10))
    }
}

/// The decimal digit of a number below ten.
pub open spec fn digit(d: nat) -> char {
    (48 + d) as char
}

/// Decimal digits of `n`.
pub fn decimal_digits(n: u64) -> (digits: Vec<char>)
    ensures
        digits@ == decimal(n as nat),
    decreases n,
{
    let d: u8 = 48 + (n % 10) as u8;
    let last: char = d as char;
    if n < 10 {
        let mut digits: Vec<char> = Vec::new();
        digits.push(last);
        assert(digits@ =~= decimal(n as nat));
        digits
    } else {
        let mut digits: Vec<char> = decimal_digits(n / 10);
        digits.push(last);
        digits
    }
}

impl RecordingId {
    pub fn new(id: u32) -> (r: Self)
        ensures
            r.0 == id,
    {
        RecordingId(id)
    }

    pub fn as_u32(self) -> (id: u32)
        ensures
            id == self.0,
    {
        self.0
    }

    /// The name of the recording: its number behind `rec-`.
    pub fn to_string(&self) -> (s: String)
        ensures
            s@ == "rec-"@ + decimal(self.0 as nat),
    {
        let mut cs: Vec<char> = chars_of("rec-");
        let mut digits: Vec<char> = decimal_digits(self.0 as u64);
        cs.append(&mut digits);
        string_of(&cs)
    }
}

/// Compact posting entry: one `(recording_id, anchor_time)` pair of an index
/// list.
#[derive(Debug, Clone, Copy, PartialEq, Eq, Structural)]
pub struct Posting {
    pub recording_id: RecordingId,
    pub anchor_time_frames: u32,
}

/// Reading a decimal number gives the number that was written, and no number
/// is written with a leading zero.
pub proof fn law_decimals_read_back(n: nat, max: nat)
    requires
        n <= max,
    ensures
        parsed_number(decimal(n), max) == Some(n),
        decimal(n).len() > 0,
        n > 0 ==> decimal(n)[0] != '0',
        decimal(n)[0] != '+',
    decreases n,
{
    let none = Seq::<char>::empty();
    if n < 10 {
        law_numbers_are_read_digit_by_digit(none, digit(n), max);
        assert(digit(n) as int == 48 + n);
    } else {
        law_decimals_read_back(n / 10, max);
        law_numbers_are_read_digit_by_digit(decimal(n / 10), digit(n % 10), max);
        assert(digit(n % 10) as int == 48 + n % 10);
    }
}

} // verus!
