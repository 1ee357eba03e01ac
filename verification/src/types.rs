//! Common value types: the day-of-week codec, month names and the export
//! file formats.

use vstd::prelude::*;
use vstd::string::StrSliceExecFns;

verus! {

/// Supported export file extensions.
#[derive(Debug, PartialEq, Eq, Structural, Clone)]
pub enum FileExt {
    Xlsx,
    Csv,
}

impl Default for FileExt {
    fn default() -> (r: Self)
        ensures
            r == FileExt::Xlsx,
    {
        FileExt::Xlsx
    }
}

/// A day of the week.  The canonical ordinal is Sunday = 0 .. Saturday = 6.
#[derive(Debug, PartialEq, Eq, Structural, Clone)]
pub enum Day {
    Sunday,
    Monday,
    Tuesday,
    Wednesday,
    Thursday,
    Friday,
    Saturday,
}

impl Default for Day {
    fn default() -> (r: Self)
        ensures
            r == Day::Sunday,
    {
        Day::Sunday
    }
}

/// A month of the year.
#[derive(Debug, PartialEq, Eq, Structural, Clone)]
pub enum Month {
    January,
    February,
    March,
    April,
    May,
    June,
    July,
    August,
    September,
    October,
    November,
    December,
}

impl Default for Month {
    fn default() -> (r: Self)
        ensures
            r == Month::January,
    {
        Month::January
    }
}

/// The canonical ordinal of a day: Sunday = 0 .. Saturday = 6.
pub open spec fn day_ord(d: Day) -> u32 {
    match d {
        Day::Sunday => 0,
        Day::Monday => 1,
        Day::Tuesday => 2,
        Day::Wednesday => 3,
        Day::Thursday => 4,
        Day::Friday => 5,
        Day::Saturday => 6,
    }
}

/// The day owning a given ordinal; anything out of range falls back to
/// Sunday.
pub open spec fn spec_day_from_u32(num: u32) -> Day {
    if num == 1 {
        Day::Monday
    } else if num == 2 {
        Day::Tuesday
    } else if num == 3 {
        Day::Wednesday
    } else if num == 4 {
        Day::Thursday
    } else if num == 5 {
        Day::Friday
    } else if num == 6 {
        Day::Saturday
    } else {
        Day::Sunday
    }
}

/// ASCII upper-casing of a single character; anything but a lower-case
/// letter is left alone.
pub open spec fn spec_upper(c: char) -> char {
    if c == 'a' {
        'A'
    } else if c == 'b' {
        'B'
    } else if c == 'c' {
        'C'
    } else if c == 'd' {
        'D'
    } else if c == 'e' {
        'E'
    } else if c == 'f' {
        'F'
    } else if c == 'g' {
        'G'
    } else if c == 'h' {
        'H'
    } else if c == 'i' {
        'I'
    } else if c == 'j' {
        'J'
    } else if c == 'k' {
        'K'
    } else if c == 'l' {
        'L'
    } else if c == 'm' {
        'M'
    } else if c == 'n' {
        'N'
    } else if c == 'o' {
        'O'
    } else if c == 'p' {
        'P'
    } else if c == 'q' {
        'Q'
    } else if c == 'r' {
        'R'
    } else if c == 's' {
        'S'
    } else if c == 't' {
        'T'
    } else if c == 'u' {
        'U'
    } else if c == 'v' {
        'V'
    } else if c == 'w' {
        'W'
    } else if c == 'x' {
        'X'
    } else if c == 'y' {
        'Y'
    } else if c == 'z' {
        'Z'
    } else {
        c
    }
}

/// ASCII upper-casing of a whole character sequence.
pub open spec fn spec_fold_upper(s: Seq<char>) -> Seq<char> {
    s.map_values(|c: char| spec_upper(c))
}

/// The day a textual token names, compared case-insensitively against the
/// full names and the common abbreviations.  An unrecognized token falls
/// back to Sunday: the codec fails open by design.
pub open spec fn spec_day_from(s: Seq<char>) -> Day {
    let u = spec_fold_upper(s);
    if u == "SUNDAY"@ || u == "SUN"@ || u == "SU"@ {
        Day::Sunday
    } else if u == "MONDAY"@ || u == "MON"@ || u == "MO"@ || u == "M"@ {
        Day::Monday
    } else if u == "TUESDAY"@ || u == "TUE"@ || u == "TU"@ {
        Day::Tuesday
    } else if u == "WEDNESDAY"@ || u == "WED"@ || u == "WE"@ || u == "W"@ {
        Day::Wednesday
    } else if u == "THURSDAY"@ || u == "THU"@ || u == "TH"@ {
        Day::Thursday
    } else if u == "FRIDAY"@ || u == "FRI"@ || u == "FR"@ || u == "F"@ {
        Day::Friday
    } else if u == "SATURDAY"@ || u == "SAT"@ || u == "SA"@ {
        Day::Saturday
    } else {
        Day::Sunday
    }
}

/// ASCII upper-casing of a single character, executable form.
fn upper_char(c: char) -> (r: char)
    ensures
        r == spec_upper(c),
{
    if c == 'a' {
        'A'
    } else if c == 'b' {
        'B'
    } else if c == 'c' {
        'C'
    } else if c == 'd' {
        'D'
    } else if c == 'e' {
        'E'
    } else if c == 'f' {
        'F'
    } else if c == 'g' {
        'G'
    } else if c == 'h' {
        'H'
    } else if c == 'i' {
        'I'
    } else if c == 'j' {
        'J'
    } else if c == 'k' {
        'K'
    } else if c == 'l' {
        'L'
    } else if c == 'm' {
        'M'
    } else if c == 'n' {
        'N'
    } else if c == 'o' {
        'O'
    } else if c == 'p' {
        'P'
    } else if c == 'q' {
        'Q'
    } else if c == 'r' {
        'R'
    } else if c == 's' {
        'S'
    } else if c == 't' {
        'T'
    } else if c == 'u' {
        'U'
    } else if c == 'v' {
        'V'
    } else if c == 'w' {
        'W'
    } else if c == 'x' {
        'X'
    } else if c == 'y' {
        'Y'
    } else if c == 'z' {
        'Z'
    } else {
        c
    }
}

/// Whether the ASCII upper-casing of `s` equals `pat` character by
/// character.  `pat` is expected to be an upper-case token.
fn eq_folded(s: &str, pat: &str) -> (r: bool)
    ensures
        r == (spec_fold_upper(s@) == pat@),
{
    let n = s.unicode_len();
    if n != pat.unicode_len() {
        return false;
    }
    let mut i: usize = 0;
    while i < n
        invariant
            i <= n,
            n == s@.len(),
            n == pat@.len(),
            forall|t: int| 0 <= t < i ==> spec_upper(s@[t]) == pat@[t],
        decreases n - i,
    {
        let c = upper_char(s.get_char(i));
        let d = pat.get_char(i);
        if c != d {
            assert(spec_fold_upper(s@)[i as int] != pat@[i as int]);
            return false;
        }
        i += 1;
    }
    assert(spec_fold_upper(s@) =~= pat@);
    true
}

impl Day {
    /// Parses a day token, case-insensitively, against the full day names
    /// and their common abbreviations; an unrecognized token maps to
    /// Sunday rather than failing.
    pub fn from(day: &str) -> (d: Self)
        ensures
            d == spec_day_from(day@),
    {
        if eq_folded(day, "SUNDAY") || eq_folded(day, "SUN") || eq_folded(day, "SU") {
            Day::Sunday
        } else if eq_folded(day, "MONDAY") || eq_folded(day, "MON") || eq_folded(day, "MO")
            || eq_folded(day, "M") {
            Day::Monday
        } else if eq_folded(day, "TUESDAY") || eq_folded(day, "TUE") || eq_folded(day, "TU") {
            Day::Tuesday
        } else if eq_folded(day, "WEDNESDAY") || eq_folded(day, "WED") || eq_folded(day, "WE")
            || eq_folded(day, "W") {
            Day::Wednesday
        } else if eq_folded(day, "THURSDAY") || eq_folded(day, "THU") || eq_folded(day, "TH") {
            Day::Thursday
        } else if eq_folded(day, "FRIDAY") || eq_folded(day, "FRI") || eq_folded(day, "FR")
            || eq_folded(day, "F") {
            Day::Friday
        } else if eq_folded(day, "SATURDAY") || eq_folded(day, "SAT") || eq_folded(day, "SA") {
            Day::Saturday
        } else {
            Day::Sunday
        }
    }

    /// The day owning the given ordinal; an out-of-range ordinal maps to
    /// Sunday.
    pub fn from_u32(num: u32) -> (d: Self)
        ensures
            d == spec_day_from_u32(num),
    {
        match num {
            1 => Day::Monday,
            2 => Day::Tuesday,
            3 => Day::Wednesday,
            4 => Day::Thursday,
            5 => Day::Friday,
            6 => Day::Saturday,
            _ => Day::Sunday,
        }
    }

    /// The display name of the day.
    pub fn as_str(&self) -> (r: &str)
        ensures
            r@ == spec_day_name(*self),
    {
        match self {
            Day::Sunday => "Sunday",
            Day::Monday => "Monday",
            Day::Tuesday => "Tuesday",
            Day::Wednesday => "Wednesday",
            Day::Thursday => "Thursday",
            Day::Friday => "Friday",
            Day::Saturday => "Saturday",
        }
    }

    /// The canonical ordinal of the day.
    pub fn to_u32(&self) -> (r: u32)
        ensures
            r == day_ord(*self),
    {
        match self {
            Day::Sunday => 0,
            Day::Monday => 1,
            Day::Tuesday => 2,
            Day::Wednesday => 3,
            Day::Thursday => 4,
            Day::Friday => 5,
            Day::Saturday => 6,
        }
    }
}

/// The display name of a day.
pub open spec fn spec_day_name(d: Day) -> Seq<char> {
    match d {
        Day::Sunday => "Sunday"@,
        Day::Monday => "Monday"@,
        Day::Tuesday => "Tuesday"@,
        Day::Wednesday => "Wednesday"@,
        Day::Thursday => "Thursday"@,
        Day::Friday => "Friday"@,
        Day::Saturday => "Saturday"@,
    }
}

/// The month owning a given one-based number; anything out of range falls
/// back to January.
pub open spec fn spec_month_from_u32(num: u32) -> Month {
    if num == 2 {
        Month::February
    } else if num == 3 {
        Month::March
    } else if num == 4 {
        Month::April
    } else if num == 5 {
        Month::May
    } else if num == 6 {
        Month::June
    } else if num == 7 {
        Month::July
    } else if num == 8 {
        Month::August
    } else if num == 9 {
        Month::September
    } else if num == 10 {
        Month::October
    } else if num == 11 {
        Month::November
    } else if num == 12 {
        Month::December
    } else {
        Month::January
    }
}

/// The display name of a month.
pub open spec fn spec_month_name(m: Month) -> Seq<char> {
    match m {
        Month::January => "January"@,
        Month::February => "February"@,
        Month::March => "March"@,
        Month::April => "April"@,
        Month::May => "May"@,
        Month::June => "June"@,
        Month::July => "July"@,
        Month::August => "August"@,
        Month::September => "September"@,
        Month::October => "October"@,
        Month::November => "November"@,
        Month::December => "December"@,
    }
}

impl Month {
    /// The month owning the given one-based number; an out-of-range number
    /// maps to January.
    pub fn from_u32(num: u32) -> (m: Self)
        ensures
            m == spec_month_from_u32(num),
    {
        match num {
            2 => Month::February,
            3 => Month::March,
            4 => Month::April,
            5 => Month::May,
            6 => Month::June,
            7 => Month::July,
            8 => Month::August,
            9 => Month::September,
            10 => Month::October,
            11 => Month::November,
            12 => Month::December,
            _ => Month::January,
        }
    }

    /// The display name of the month.
    pub fn as_str(&self) -> (r: &str)
        ensures
            r@ == spec_month_name(*self),
    {
        match self {
            Month::January => "January",
            Month::February => "February",
            Month::March => "March",
            Month::April => "April",
            Month::May => "May",
            Month::June => "June",
            Month::July => "July",
            Month::August => "August",
            Month::September => "September",
            Month::October => "October",
            Month::November => "November",
            Month::December => "December",
        }
    }
}

} // verus!
