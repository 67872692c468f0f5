//! The role handed to the `aichat` model: the model's name followed by the
//! local time, the date, the day of the week and the user's name.
//!
//! The time, the date and the weekday are written by `chrono`: `%Hh%M` for
//! the time, `%Y-%m-%d` for the date, and the three-letter English name of
//! the weekday.
use vstd::prelude::*;
use chrono::Datelike;

verus! {

/// `String::push` appends one character, as std documents.
pub assume_specification[ String::push ](s: &mut String, ch: char)
    ensures
        final(s)@ == old(s)@.push(ch),
;

/// The years that `chrono`'s dates represent.
pub open spec fn chrono_year(year: int) -> bool {
    -262143 <= year <= 262142
}

/// A leap year of the proleptic Gregorian calendar.
pub open spec fn leap_year(year: int) -> bool {
    year % 4 == 0 && (year % 100 != 0 || year % 400 == 0)
}

/// The number of days of a month (1 to 12) in a year.
pub open spec fn days_in_month(year: int, month: int) -> int {
    if month == 2 {
        if leap_year(year) {
            29
        } else {
            28
        }
    } else if month == 4 || month == 6 || month == 9 || month == 11 {
        30
    } else {
        31
    }
}

/// A calendar date that `chrono` represents.
pub open spec fn valid_date(year: int, month: int, day: int) -> bool {
    &&& chrono_year(year)
    &&& 1 <= month <= 12
    &&& 1 <= day <= days_in_month(year, month)
}

/// The months have their Gregorian lengths in every year: thirty days have
/// April, June, September and November; February has 28, or 29 in a leap
/// year; the seven others have 31.
pub proof fn law_month_lengths(year: int)
    ensures
        days_in_month(year, 1) == 31,
        days_in_month(year, 2) == (if leap_year(year) { 29int } else { 28int }),
        days_in_month(year, 3) == 31,
        days_in_month(year, 4) == 30,
        days_in_month(year, 5) == 31,
        days_in_month(year, 6) == 30,
        days_in_month(year, 7) == 31,
        days_in_month(year, 8) == 31,
        days_in_month(year, 9) == 30,
        days_in_month(year, 10) == 31,
        days_in_month(year, 11) == 30,
        days_in_month(year, 12) == 31,
{
}

/// The Gregorian calendar repeats every 400 years, which count 97 leap
/// years: 146097 days.
pub proof fn law_gregorian_cycle(year: int)
    ensures
        leap_year(year + 400) == leap_year(year),
        days_before_year(year + 400) == days_before_year(year) + 146097,
{
    let y = year - 1;
    vstd::arithmetic::div_mod::lemma_fundamental_div_mod(y, 4);
    vstd::arithmetic::div_mod::lemma_fundamental_div_mod(y + 400, 4);
    vstd::arithmetic::div_mod::lemma_fundamental_div_mod(y, 100);
    vstd::arithmetic::div_mod::lemma_fundamental_div_mod(y + 400, 100);
    vstd::arithmetic::div_mod::lemma_fundamental_div_mod(y, 400);
    vstd::arithmetic::div_mod::lemma_fundamental_div_mod(y + 400, 400);
    vstd::arithmetic::div_mod::lemma_fundamental_div_mod(year, 4);
    vstd::arithmetic::div_mod::lemma_fundamental_div_mod(year + 400, 4);
    vstd::arithmetic::div_mod::lemma_fundamental_div_mod(year, 100);
    vstd::arithmetic::div_mod::lemma_fundamental_div_mod(year + 400, 100);
    vstd::arithmetic::div_mod::lemma_fundamental_div_mod(year, 400);
    vstd::arithmetic::div_mod::lemma_fundamental_div_mod(year + 400, 400);
    assert((y + 400) / 4 == y / 4 + 100);
    assert((y + 400) / 100 == y / 100 + 4);
    assert((y + 400) / 400 == y / 400 + 1);
}

/// A date and a time of day, to the minute.
pub open spec fn valid_reading(year: int, month: int, day: int, hour: int, minute: int) -> bool {
    valid_date(year, month, day) && 0 <= hour < 24 && 0 <= minute < 60
}

/// A reading of the local clock, by its calendar fields.
pub struct ClockReading {
    year: i32,
    month: u32,
    day: u32,
    hour: u32,
    minute: u32,
}

impl ClockReading {
    /// The fields form a date that `chrono` represents and a time of day.
    #[verifier::type_invariant]
    pub closed spec fn wf(self) -> bool {
        valid_reading(
            self.year as int,
            self.month as int,
            self.day as int,
            self.hour as int,
            self.minute as int,
        )
    }

    pub closed spec fn year_of(self) -> i32 {
        self.year
    }

    pub closed spec fn month_of(self) -> u32 {
        self.month
    }

    pub closed spec fn day_of(self) -> u32 {
        self.day
    }

    pub closed spec fn hour_of(self) -> u32 {
        self.hour
    }

    pub closed spec fn minute_of(self) -> u32 {
        self.minute
    }

    /// A reading from its fields; `None` when they form no date or no time
    /// of day.
    pub fn new(year: i32, month: u32, day: u32, hour: u32, minute: u32) -> (r: Option<ClockReading>)
        ensures
            r is Some <==> valid_reading(year as int, month as int, day as int, hour as int, minute as int),
            r matches Some(c) ==> {
                &&& c.year_of() == year
                &&& c.month_of() == month
                &&& c.day_of() == day
                &&& c.hour_of() == hour
                &&& c.minute_of() == minute
            },
    {
        if -262143 <= year && year <= 262142 && 1 <= month && month <= 12 && 1 <= day && day
            <= month_length(year, month) && hour < 24 && minute < 60 {
            Some(ClockReading { year, month, day, hour, minute })
        } else {
            None
        }
    }
}

/// The number of days of `month` in `year`.
fn month_length(year: i32, month: u32) -> (r: u32)
    requires
        chrono_year(year as int),
        1 <= month <= 12,
    ensures
        r == days_in_month(year as int, month as int),
{
    if month == 2 {
        // A whole number of 400-year cycles keeps the leap years.
        let shifted: u32 = (year + 400000) as u32;
        assert(shifted % 4 == (year as int) % 4);
        assert(shifted % 100 == (year as int) % 100);
        assert(shifted % 400 == (year as int) % 400);
        if shifted % 4 == 0 && (shifted % 100 != 0 || shifted % 400 == 0) {
            29
        } else {
            28
        }
    } else if month == 4 || month == 6 || month == 9 || month == 11 {
        30
    } else {
        31
    }
}

/// The decimal digit `d`.
pub open spec fn digit_char(d: nat) -> char {
    (d + 48) as char
}

/// The decimal writing of `n`, without leading zeros.
pub open spec fn decimal(n: nat) -> Seq<char>
    decreases n,
{
    if n < 10 {
        seq![digit_char(n)]
    } else {
        decimal(n / 10).push(digit_char(n % 10))
    }
}

/// The decimal writing of `n`, with zeros in front up to `width` digits.
pub open spec fn zero_padded(n: nat, width: nat) -> Seq<char> {
    let d = decimal(n);
    if d.len() < width {
        Seq::new((width - d.len()) as nat, |i: int| '0') + d
    } else {
        d
    }
}

/// `%Y`: at least four digits; a sign in front of the years outside
/// 0..=9999.
pub open spec fn year_text(y: int) -> Seq<char> {
    if 0 <= y <= 9999 {
        zero_padded(y as nat, 4)
    } else if y > 9999 {
        seq!['+'] + zero_padded(y as nat, 4)
    } else {
        seq!['-'] + zero_padded((-y) as nat, 4)
    }
}

/// Below 100, a two-digit field is the tens digit then the units digit.
pub proof fn law_two_digit_field(n: nat)
    requires
        n < 100,
    ensures
        zero_padded(n, 2) == seq![digit_char(n / 10), digit_char(n % 10)],
{
    if n < 10 {
        assert(zero_padded(n, 2) =~= seq![digit_char(0), digit_char(n)]);
    } else {
        assert(decimal(n / 10) == seq![digit_char(n / 10)]);
        assert(zero_padded(n, 2) =~= seq![digit_char(n / 10), digit_char(n % 10)]);
    }
}

/// A year from 0 to 9999 is written with four digits, thousands first; a
/// year before 0 is written as its opposite after a `-`.
pub proof fn law_four_digit_year(y: int)
    requires
        -9999 <= y <= 9999,
    ensures
        0 <= y ==> year_text(y) == seq![
            digit_char((y / 1000) as nat),
            digit_char((y / 100 % 10) as nat),
            digit_char((y / 10 % 10) as nat),
            digit_char((y % 10) as nat),
        ],
        y < 0 ==> year_text(y) == seq!['-'] + year_text(-y),
{
    if 0 <= y {
        let n = y as nat;
        reveal_with_fuel(decimal, 4);
        if n < 10 {
            assert(year_text(y) =~= seq![digit_char(0), digit_char(0), digit_char(0), digit_char(n)]);
        } else if n < 100 {
            assert(year_text(y) =~= seq![
                digit_char(0),
                digit_char(0),
                digit_char(n / 10),
                digit_char(n % 10),
            ]);
        } else if n < 1000 {
            assert(n / 10 / 10 == n / 100);
            assert(year_text(y) =~= seq![
                digit_char(0),
                digit_char(n / 100),
                digit_char(n / 10 % 10),
                digit_char(n % 10),
            ]);
        } else {
            assert(n / 10 / 10 == n / 100);
            assert(n / 10 / 10 / 10 == n / 1000);
            assert(n / 100 % 10 == n / 10 / 10 % 10);
            assert(year_text(y) =~= seq![
                digit_char(n / 1000),
                digit_char(n / 100 % 10),
                digit_char(n / 10 % 10),
                digit_char(n % 10),
            ]);
        }
    }
}

/// Calls `chrono::NaiveTime::from_hms_opt(hour, minute, 0)`, then `format`
/// with `fmt` and `to_string`. Claimed for the one format `%Hh%M`, as
/// `chrono` documents `%H` and `%M`: the hour and the minute on two digits,
/// zero-padded, around the letter `h`. Other formats are not claimed (an
/// invalid one makes `to_string` panic).
#[verifier::external_body]
fn chrono_time_text(hour: u32, minute: u32, fmt: &str) -> (r: String)
    requires
        hour < 24,
        minute < 60,
        fmt@ == "%Hh%M"@,
    ensures
        r@ == zero_padded(hour as nat, 2) + seq!['h'] + zero_padded(minute as nat, 2),
{
    chrono::NaiveTime::from_hms_opt(hour, minute, 0).unwrap().format(fmt).to_string()
}

/// Calls `chrono::NaiveDate::from_ymd_opt(year, month, day)`, then
/// `format` with `fmt` and `to_string`. Claimed for the one format
/// `%Y-%m-%d`, as `chrono` writes `%Y` (at least four digits, with a sign
/// outside 0..=9999), `%m` and `%d` (two digits, zero-padded). Other formats
/// are not claimed.
#[verifier::external_body]
fn chrono_date_text(year: i32, month: u32, day: u32, fmt: &str) -> (r: String)
    requires
        valid_date(year as int, month as int, day as int),
        fmt@ == "%Y-%m-%d"@,
    ensures
        r@ == year_text(year as int) + seq!['-'] + zero_padded(month as nat, 2) + seq!['-']
            + zero_padded(day as nat, 2),
{
    chrono::NaiveDate::from_ymd_opt(year, month, day).unwrap().format(fmt).to_string()
}

/// Days from 0001-01-01 to the first of January of `year` in the proleptic
/// Gregorian calendar, negative for the years before; years count as
/// `chrono` counts them, year 0 being 1 BCE.
pub open spec fn days_before_year(year: int) -> int {
    let y = year - 1;
    365 * y + y / 4 - y / 100 + y / 400
}

/// Days from the first of January of `year` to the first of `month`.
pub open spec fn days_before_month(year: int, month: int) -> int
    decreases month,
{
    if month <= 1 {
        0
    } else {
        days_before_month(year, month - 1) + days_in_month(year, month - 1)
    }
}

/// The day of a date counted from 0001-01-01, which is day 0.
pub open spec fn day_number(year: int, month: int, day: int) -> int {
    days_before_year(year) + days_before_month(year, month) + day - 1
}

/// The day of the week of a date, from Monday = 0 to Sunday = 6: 0001-01-01
/// was a Monday.
pub open spec fn weekday_index(year: int, month: int, day: int) -> int {
    day_number(year, month, day) % 7
}

/// The three-letter English name of the day of the week `i`, counted from
/// Monday = 0.
pub open spec fn day_name(i: int) -> Seq<char> {
    if i == 0 {
        "Mon"@
    } else if i == 1 {
        "Tue"@
    } else if i == 2 {
        "Wed"@
    } else if i == 3 {
        "Thu"@
    } else if i == 4 {
        "Fri"@
    } else if i == 5 {
        "Sat"@
    } else {
        "Sun"@
    }
}

/// The three-letter English name of the day of the week of a date.
pub open spec fn weekday_of_date(year: int, month: int, day: int) -> Seq<char> {
    day_name(weekday_index(year, month, day))
}

/// A year counts 366 days when it is a leap year, 365 otherwise.
proof fn lemma_year_length(year: int)
    ensures
        days_before_year(year + 1) == days_before_year(year) + if leap_year(year) {
            366int
        } else {
            365int
        },
        days_before_month(year, 12) + 31 == if leap_year(year) {
            366int
        } else {
            365int
        },
{
    reveal_with_fuel(days_before_month, 13);
    let y = year - 1;
    vstd::arithmetic::div_mod::lemma_fundamental_div_mod(y, 4);
    vstd::arithmetic::div_mod::lemma_fundamental_div_mod(y + 1, 4);
    vstd::arithmetic::div_mod::lemma_fundamental_div_mod(y, 100);
    vstd::arithmetic::div_mod::lemma_fundamental_div_mod(y + 1, 100);
    vstd::arithmetic::div_mod::lemma_fundamental_div_mod(y, 400);
    vstd::arithmetic::div_mod::lemma_fundamental_div_mod(y + 1, 400);
    assert((y + 1) / 4 - y / 4 == (if year % 4 == 0 { 1int } else { 0 }));
    assert((y + 1) / 100 - y / 100 == (if year % 100 == 0 { 1int } else { 0 }));
    assert((y + 1) / 400 - y / 400 == (if year % 400 == 0 { 1int } else { 0 }));
}

/// Within a month, the next day falls on the next day of the week; the
/// first of January falls on the day after the thirty-first of December;
/// and 0001-01-01 was a Monday, as in the proleptic Gregorian calendar.
pub proof fn law_days_follow_each_other(year: int, month: int, day: int)
    requires
        1 <= month <= 12,
        1 <= day < days_in_month(year, month),
    ensures
        weekday_index(year, month, day + 1) == (weekday_index(year, month, day) + 1) % 7,
        weekday_index(year + 1, 1, 1) == (weekday_index(year, 12, 31) + 1) % 7,
        weekday_of_date(1, 1, 1) == "Mon"@,
{
    assert(day_number(1, 1, 1) == 0);
    lemma_year_length(year);
    assert(day_number(year, month, day + 1) == day_number(year, month, day) + 1);
    assert(day_number(year + 1, 1, 1) == day_number(year, 12, 31) + 1);
    vstd::arithmetic::div_mod::lemma_add_mod_noop(day_number(year, month, day), 1, 7);
    vstd::arithmetic::div_mod::lemma_add_mod_noop(day_number(year, 12, 31), 1, 7);
    vstd::arithmetic::div_mod::lemma_small_mod(1, 7);
}

/// Calls `chrono::NaiveDate::from_ymd_opt(year, month, day)`, then
/// `Datelike::weekday` and the `Display` of `Weekday`. Claimed: the
/// three-letter English name of the date's day of the week in the proleptic
/// Gregorian calendar, as `chrono` documents its dates and writes its
/// weekdays.
#[verifier::external_body]
fn chrono_weekday_text(year: i32, month: u32, day: u32) -> (r: String)
    requires
        valid_date(year as int, month as int, day as int),
    ensures
        r@ == weekday_of_date(year as int, month as int, day as int),
{
    chrono::NaiveDate::from_ymd_opt(year, month, day).unwrap().weekday().to_string()
}

/// `%Hh%M`.
pub open spec fn time_text(c: ClockReading) -> Seq<char> {
    zero_padded(c.hour_of() as nat, 2) + seq!['h'] + zero_padded(c.minute_of() as nat, 2)
}

/// `%Y-%m-%d`.
pub open spec fn date_text(c: ClockReading) -> Seq<char> {
    year_text(c.year_of() as int) + seq!['-'] + zero_padded(c.month_of() as nat, 2) + seq!['-']
        + zero_padded(c.day_of() as nat, 2)
}

/// The three-letter name of the day of the week of the reading.
pub open spec fn weekday_text(c: ClockReading) -> Seq<char> {
    weekday_of_date(c.year_of() as int, c.month_of() as int, c.day_of() as int)
}

/// The role given to the model for a user on a given weekday:
/// `role:time:date:weekday:name`.
pub open spec fn role_on_text(role: Seq<char>, c: ClockReading, weekday: Seq<char>, name: Seq<
    char,
>) -> Seq<char> {
    role + seq![':'] + time_text(c) + seq![':'] + date_text(c) + seq![':'] + weekday + seq![':']
        + name
}

/// The role given to the model for a user, with the day of the week of the
/// reading.
pub open spec fn role_text(role: Seq<char>, c: ClockReading, name: Seq<char>) -> Seq<char> {
    role_on_text(role, c, weekday_text(c), name)
}

/// The role given to the model when the bot speaks for itself:
/// `bar:time:date`.
pub open spec fn bar_role_text(c: ClockReading) -> Seq<char> {
    "bar:"@ + time_text(c) + seq![':'] + date_text(c)
}

/// The time of the reading, `%Hh%M`.
fn time_of(clock: &ClockReading) -> (r: String)
    ensures
        r@ == time_text(*clock),
{
    proof {
        use_type_invariant(clock);
    }
    chrono_time_text(clock.hour, clock.minute, "%Hh%M")
}

/// The date of the reading, `%Y-%m-%d`.
fn date_of(clock: &ClockReading) -> (r: String)
    ensures
        r@ == date_text(*clock),
{
    proof {
        use_type_invariant(clock);
    }
    chrono_date_text(clock.year, clock.month, clock.day, "%Y-%m-%d")
}

/// The role handed to the model `role` to answer the user `name` at the
/// time `clock`, which falls on `weekday`.
pub fn role_on(role: &String, clock: &ClockReading, weekday: &String, name: &String) -> (r: String)
    ensures
        r@ == role_on_text(role@, *clock, weekday@, name@),
{
    let time = time_of(clock);
    let date = date_of(clock);
    let mut out = role.clone();
    out.push(':');
    out.append(time.as_str());
    out.push(':');
    out.append(date.as_str());
    out.push(':');
    out.append(weekday.as_str());
    out.push(':');
    out.append(name.as_str());
    proof {
        assert(out@ =~= role_on_text(role@, *clock, weekday@, name@));
    }
    out
}

/// The role handed to the model `role` to answer the user `name` at the
/// time `clock`.
pub fn role_argument(role: &String, clock: &ClockReading, name: &String) -> (r: String)
    ensures
        r@ == role_text(role@, *clock, name@),
{
    proof {
        use_type_invariant(clock);
    }
    let weekday = chrono_weekday_text(clock.year, clock.month, clock.day);
    role_on(role, clock, &weekday, name)
}

/// The role under which the bot asks the model on its own behalf at the
/// time `clock`.
pub fn bar_role(clock: &ClockReading) -> (r: String)
    ensures
        r@ == bar_role_text(*clock),
{
    let time = time_of(clock);
    let date = date_of(clock);
    let mut out = "bar:".to_owned();
    out.append(time.as_str());
    out.push(':');
    out.append(date.as_str());
    proof {
        assert(out@ =~= bar_role_text(*clock));
    }
    out
}

} // verus!
