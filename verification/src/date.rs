//! Calendar dates as a task line writes them: four digits of the year, two
//! of the month and two of the day, with a hyphen between them.

use vstd::prelude::*;

verus! {

/// The number of characters of a written date.
pub const DATE_LEN: usize = 10;

/// A day of the calendar.
#[derive(Clone, Copy, Debug, PartialEq, Eq, Structural)]
pub struct Date {
    pub year: u16,
    pub month: u8,
    pub day: u8,
}

/// The year `year` has a 29th of February.
pub open spec fn is_leap_year(year: int) -> bool {
    year % 4 == 0 && (year % 100 != 0 || year % 400 == 0)
}

/// The number of days of the month `month` of the year `year`.
pub open spec fn days_in_month(year: int, month: int) -> int {
    if month == 2 {
        if is_leap_year(year) {
            29
        } else {
            28
        }
    } else if month == 4 || month == 6 || month == 9 || month == 11 {
        30
    } else {
        31
    }
}

/// `year`, `month` and `day` name a day of the Gregorian calendar, with a
/// year of at most four digits.
pub open spec fn is_calendar_date(year: int, month: int, day: int) -> bool {
    &&& 0 <= year <= 9999
    &&& 1 <= month <= 12
    &&& 1 <= day <= days_in_month(year, month)
}

/// The character that writes the digit `n`.
pub open spec fn digit_char(n: int) -> char {
    (48 + n) as char
}

/// `c` is one of the ten digits.
pub open spec fn is_digit(c: char) -> bool {
    48 <= c as u32 <= 57
}

/// The digit that `c` writes.
pub open spec fn digit_value(c: char) -> int {
    c as u32 - 48
}

impl Date {
    /// The date names a day of the calendar.
    pub open spec fn is_valid(self) -> bool {
        is_calendar_date(self.year as int, self.month as int, self.day as int)
    }

    /// The date as a task line writes it.
    pub open spec fn text(self) -> Seq<char> {
        let y = self.year as int;
        let m = self.month as int;
        let d = self.day as int;
        seq![
            digit_char(y / 1000),
            digit_char(y / 100 % 10),
            digit_char(y / 10 % 10),
            digit_char(y % 10),
            '-',
            digit_char(m / 10),
            digit_char(m % 10),
            '-',
            digit_char(d / 10),
            digit_char(d % 10),
        ]
    }

    /// Tells whether the date names a day of the calendar.
    pub fn check(&self) -> (ok: bool)
        ensures
            ok == self.is_valid(),
    {
        if self.year > 9999 || self.month < 1 || self.month > 12 || self.day < 1 {
            return false;
        }
        let leap = self.year % 4 == 0 && (self.year % 100 != 0 || self.year % 400 == 0);
        let days: u8 = if self.month == 2 {
            if leap {
                29
            } else {
                28
            }
        } else if self.month == 4 || self.month == 6 || self.month == 9 || self.month == 11 {
            30
        } else {
            31
        };
        self.day <= days
    }
}

/// The date that `s` writes from index `i` on, where the ten characters there
/// are a written date of the calendar.
pub open spec fn date_at(s: Seq<char>, i: int) -> Option<Date> {
    if 0 <= i && i + 10 <= s.len() && is_digit(s[i]) && is_digit(s[i + 1]) && is_digit(s[i + 2])
        && is_digit(s[i + 3]) && s[i + 4] == '-' && is_digit(s[i + 5]) && is_digit(s[i + 6]) && s[i
        + 7] == '-' && is_digit(s[i + 8]) && is_digit(s[i + 9]) {
        let year = digit_value(s[i]) * 1000 + digit_value(s[i + 1]) * 100 + digit_value(s[i + 2])
            * 10 + digit_value(s[i + 3]);
        let month = digit_value(s[i + 5]) * 10 + digit_value(s[i + 6]);
        let day = digit_value(s[i + 8]) * 10 + digit_value(s[i + 9]);
        if is_calendar_date(year, month, day) {
            Some(Date { year: year as u16, month: month as u8, day: day as u8 })
        } else {
            None
        }
    } else {
        None
    }
}

/// A date that is read at `i` is valid, and is written there as its own text.
pub proof fn lemma_date_at(s: Seq<char>, i: int)
    requires
        date_at(s, i) is Some,
    ensures
        date_at(s, i)->0.is_valid(),
        0 <= i,
        i + 10 <= s.len(),
        s.subrange(i, i + 10) == date_at(s, i)->0.text(),
{
    let d = date_at(s, i)->0;
    let t = s.subrange(i, i + 10);
    lemma_digit(s[i]);
    lemma_digit(s[i + 1]);
    lemma_digit(s[i + 2]);
    lemma_digit(s[i + 3]);
    lemma_digit(s[i + 5]);
    lemma_digit(s[i + 6]);
    lemma_digit(s[i + 8]);
    lemma_digit(s[i + 9]);
    lemma_four_digits(
        digit_value(s[i]),
        digit_value(s[i + 1]),
        digit_value(s[i + 2]),
        digit_value(s[i + 3]),
    );
    lemma_two_digits(digit_value(s[i + 5]), digit_value(s[i + 6]));
    lemma_two_digits(digit_value(s[i + 8]), digit_value(s[i + 9]));
    let text = d.text();
    assert(t.len() == 10 && text.len() == 10);
    assert(t[0] == text[0]);
    assert(t[1] == text[1]);
    assert(t[2] == text[2]);
    assert(t[3] == text[3]);
    assert(t[5] == text[5]);
    assert(t[6] == text[6]);
    assert(t[8] == text[8]);
    assert(t[9] == text[9]);
    assert(t =~= text);
}

/// The digits of a number of four digits.
proof fn lemma_four_digits(a: int, b: int, c: int, d: int)
    requires
        0 <= a <= 9,
        0 <= b <= 9,
        0 <= c <= 9,
        0 <= d <= 9,
    ensures
        (a * 1000 + b * 100 + c * 10 + d) / 1000 == a,
        (a * 1000 + b * 100 + c * 10 + d) / 100 % 10 == b,
        (a * 1000 + b * 100 + c * 10 + d) / 10 % 10 == c,
        (a * 1000 + b * 100 + c * 10 + d) % 10 == d,
{
    let n = a * 1000 + b * 100 + c * 10 + d;
    assert(n / 1000 == a);
    assert(n / 100 == a * 10 + b);
    assert(n / 10 == a * 100 + b * 10 + c);
}

/// The digits of a number of two digits.
proof fn lemma_two_digits(a: int, b: int)
    requires
        0 <= a <= 9,
        0 <= b <= 9,
    ensures
        (a * 10 + b) / 10 == a,
        (a * 10 + b) % 10 == b,
{
}

/// A digit is the character of its value.
pub proof fn lemma_digit(c: char)
    requires
        is_digit(c),
    ensures
        0 <= digit_value(c) <= 9,
        digit_char(digit_value(c)) == c,
{
    vstd::utf8::char_u32_cast(c, c as u32);
}

/// The value of the digit `c`, where `c` is one.
fn digit_of(c: char) -> (d: Option<u8>)
    ensures
        d is Some <==> is_digit(c),
        d matches Some(v) ==> v == digit_value(c),
{
    let u: u32 = c as u32;
    if 48 <= u && u <= 57 {
        Some((u - 48) as u8)
    } else {
        None
    }
}

/// The value of the two digits of `s` at `i`, where there are two.
fn two_digits(s: &Vec<char>, i: usize) -> (d: Option<u8>)
    requires
        i + 2 <= s.len(),
    ensures
        d is Some <==> is_digit(s@[i as int]) && is_digit(s@[i + 1]),
        d matches Some(v) ==> v == digit_value(s@[i as int]) * 10 + digit_value(s@[i + 1]),
{
    match (digit_of(s[i]), digit_of(s[i + 1])) {
        (Some(a), Some(b)) => Some(a * 10 + b),
        _ => None,
    }
}

/// Reads the date that `s` writes from index `i` on.
pub fn read_date(s: &Vec<char>, i: usize) -> (date: Option<Date>)
    ensures
        date == date_at(s@, i as int),
{
    if s.len() < DATE_LEN || i > s.len() - DATE_LEN {
        return None;
    }
    if s[i + 4] != '-' || s[i + 7] != '-' {
        return None;
    }
    let (hi, lo, month, day) = match (
        two_digits(s, i),
        two_digits(s, i + 2),
        two_digits(s, i + 5),
        two_digits(s, i + 8),
    ) {
        (Some(hi), Some(lo), Some(month), Some(day)) => (hi, lo, month, day),
        _ => {
            return None;
        },
    };
    let year: u16 = hi as u16 * 100 + lo as u16;
    let date = Date { year, month, day };
    if date.check() {
        Some(date)
    } else {
        None
    }
}

} // verus!
