//! Calendar dates written `YYYY-MM-DD`, and spans such as `3d` or `-2w`.
use vstd::prelude::*;

verus! {

#[derive(Clone, Copy, Debug, PartialEq, Eq, Structural)]
pub struct Date {
    pub year: u32,
    pub month: u32,
    pub day: u32,
}

#[derive(Clone, Copy, Debug, PartialEq, Eq, Structural)]
pub enum Unit {
    Day,
    Week,
    Month,
    Year,
}

/// A number of units, negative for the past.
#[derive(Clone, Copy, Debug, PartialEq, Eq, Structural)]
pub struct Span {
    pub count: i32,
    pub unit: Unit,
}

pub open spec fn is_leap(year: int) -> bool {
    (year % 4 == 0 && year % 100 != 0) || year % 400 == 0
}

pub open spec fn month_len(year: int, month: int) -> int {
    if month == 2 {
        if is_leap(year) {
            29
        } else {
            28
        }
    } else if month == 4 || month == 6 || month == 9 || month == 11 {
        30
    } else {
        31
    }
}

impl Date {
    /// A day of the Gregorian calendar in the years 0 to 9999.
    pub open spec fn valid(self) -> bool {
        &&& self.year <= 9999
        &&& 1 <= self.month <= 12
        &&& 1 <= self.day <= month_len(self.year as int, self.month as int)
    }

    /// A number that orders dates.
    pub open spec fn rank(self) -> int {
        self.year * 10000 + self.month * 100 + self.day
    }
}

pub fn days_in_month(year: u32, month: u32) -> (r: u32)
    ensures
        r == month_len(year as int, month as int),
        28 <= r <= 31,
{
    if month == 2 {
        if (year % 4 == 0 && year % 100 != 0) || year % 400 == 0 {
            29
        } else {
            28
        }
    } else if month == 4 || month == 6 || month == 9 || month == 11 {
        30
    } else {
        31
    }
}

/// The number that orders a date among others.
pub fn date_rank(d: Date) -> (r: u64)
    requires
        d.valid(),
    ensures
        r == d.rank(),
        r < 100_000_000,
{
    d.year as u64 * 10000 + d.month as u64 * 100 + d.day as u64
}

/// The day after `d`; `None` after the last day of 9999.
pub open spec fn day_after(d: Date) -> Option<Date> {
    if d.day < month_len(d.year as int, d.month as int) {
        Some(Date { day: (d.day + 1) as u32, ..d })
    } else if d.month < 12 {
        Some(Date { month: (d.month + 1) as u32, day: 1, ..d })
    } else if d.year < 9999 {
        Some(Date { year: (d.year + 1) as u32, month: 1, day: 1 })
    } else {
        None
    }
}

/// The day before `d`; `None` before the first day of year 0.
pub open spec fn day_before(d: Date) -> Option<Date> {
    if d.day > 1 {
        Some(Date { day: (d.day - 1) as u32, ..d })
    } else if d.month > 1 {
        Some(
            Date {
                month: (d.month - 1) as u32,
                day: month_len(d.year as int, d.month - 1) as u32,
                ..d
            },
        )
    } else if d.year > 0 {
        Some(Date { year: (d.year - 1) as u32, month: 12, day: 31 })
    } else {
        None
    }
}

/// `n` days after `d`, or before it when `n` is negative.
pub open spec fn plus_days(d: Date, n: int) -> Option<Date>
    decreases
            (if n < 0 {
                -n
            } else {
                n
            }),
{
    if n == 0 {
        Some(d)
    } else if n > 0 {
        match day_after(d) {
            Some(e) => plus_days(e, n - 1),
            None => None,
        }
    } else {
        match day_before(d) {
            Some(e) => plus_days(e, n + 1),
            None => None,
        }
    }
}

/// `n` months after `d`, on the last day of a month that is too short.
pub open spec fn plus_months(d: Date, n: int) -> Option<Date> {
    let total = d.year * 12 + d.month - 1 + n;
    if total < 0 || total >= 120_000 {
        None
    } else {
        let year = total / 12;
        let month = total % 12 + 1;
        let len = month_len(year, month);
        Some(
            Date {
                year: year as u32,
                month: month as u32,
                day: if d.day <= len {
                    d.day
                } else {
                    len as u32
                },
            },
        )
    }
}

/// `d` moved by a span.
pub open spec fn shifted(d: Date, by: Span) -> Option<Date> {
    match by.unit {
        Unit::Day => plus_days(d, by.count as int),
        Unit::Week => plus_days(d, by.count * 7),
        Unit::Month => plus_months(d, by.count as int),
        Unit::Year => plus_months(d, by.count * 12),
    }
}

fn next_day(d: Date) -> (r: Option<Date>)
    requires
        d.valid(),
    ensures
        r == day_after(d),
        r matches Some(e) ==> e.valid(),
{
    if d.day < days_in_month(d.year, d.month) {
        Some(Date { year: d.year, month: d.month, day: d.day + 1 })
    } else if d.month < 12 {
        Some(Date { year: d.year, month: d.month + 1, day: 1 })
    } else if d.year < 9999 {
        Some(Date { year: d.year + 1, month: 1, day: 1 })
    } else {
        None
    }
}

fn previous_day(d: Date) -> (r: Option<Date>)
    requires
        d.valid(),
    ensures
        r == day_before(d),
        r matches Some(e) ==> e.valid(),
{
    if d.day > 1 {
        Some(Date { year: d.year, month: d.month, day: d.day - 1 })
    } else if d.month > 1 {
        Some(Date { year: d.year, month: d.month - 1, day: days_in_month(d.year, d.month - 1) })
    } else if d.year > 0 {
        Some(Date { year: d.year - 1, month: 12, day: 31 })
    } else {
        None
    }
}

/// `n` days after `d`, or before it when `n` is negative.
pub fn add_days(d: Date, n: i64) -> (r: Option<Date>)
    requires
        d.valid(),
    ensures
        r == plus_days(d, n as int),
        r matches Some(e) ==> e.valid(),
{
    let mut at: Date = d;
    let mut left: i64 = n;
    while left != 0
        invariant
            at.valid(),
            plus_days(d, n as int) == plus_days(at, left as int),
        decreases
                (if left < 0 {
                    -left
                } else {
                    left as int
                }),
    {
        if left > 0 {
            match next_day(at) {
                Some(e) => {
                    at = e;
                    left -= 1;
                },
                None => {
                    return None;
                },
            }
        } else {
            match previous_day(at) {
                Some(e) => {
                    at = e;
                    left += 1;
                },
                None => {
                    return None;
                },
            }
        }
    }
    Some(at)
}

/// `n` months after `d`, or before it when `n` is negative.
pub fn add_months(d: Date, n: i64) -> (r: Option<Date>)
    requires
        d.valid(),
    ensures
        r == plus_months(d, n as int),
        r matches Some(e) ==> e.valid(),
{
    let total: i128 = d.year as i128 * 12 + d.month as i128 - 1 + n as i128;
    if total < 0 || total >= 120_000 {
        return None;
    }
    let year: u32 = (total / 12) as u32;
    let month: u32 = (total % 12 + 1) as u32;
    let len: u32 = days_in_month(year, month);
    let day: u32 = if d.day <= len {
        d.day
    } else {
        len
    };
    Some(Date { year, month, day })
}

/// `d` moved by a span; `None` when that leaves the years 0 to 9999.
pub fn shift(d: Date, by: Span) -> (r: Option<Date>)
    requires
        d.valid(),
    ensures
        r == shifted(d, by),
        r matches Some(e) ==> e.valid(),
{
    match by.unit {
        Unit::Day => add_days(d, by.count as i64),
        Unit::Week => add_days(d, by.count as i64 * 7),
        Unit::Month => add_months(d, by.count as i64),
        Unit::Year => add_months(d, by.count as i64 * 12),
    }
}

pub open spec fn is_digit(c: char) -> bool {
    '0' <= c && c <= '9'
}

pub open spec fn all_digits(s: Seq<char>) -> bool {
    forall|i: int| 0 <= i < s.len() ==> is_digit(#[trigger] s[i])
}

/// Whether every character is a digit.
pub fn is_number(chars: &Vec<char>) -> (r: bool)
    ensures
        r == all_digits(chars@),
{
    let mut i: usize = 0;
    while i < chars.len()
        invariant
            i <= chars.len(),
            forall|k: int| 0 <= k < i ==> is_digit(#[trigger] chars@[k]),
        decreases chars.len() - i,
    {
        if !('0' <= chars[i] && chars[i] <= '9') {
            proof {
                assert(!is_digit(chars@[i as int]));
            }
            return false;
        }
        i += 1;
    }
    true
}

/// The number that decimal digits write.
pub open spec fn digits_value(s: Seq<char>) -> int
    decreases s.len(),
{
    if s.len() == 0 {
        0
    } else {
        digits_value(s.drop_last()) * 10 + (s.last() as int - '0' as int)
    }
}

/// The last `n` decimal digits of `v`.
pub open spec fn digits_of(v: int, n: nat) -> Seq<char>
    decreases n,
{
    if n == 0 {
        Seq::empty()
    } else {
        digits_of(v / 10, (n - 1) as nat).push(('0' as int + v % 10) as char)
    }
}

/// The date that ten characters write, if they write one.
pub open spec fn date_in(s: Seq<char>) -> Option<Date> {
    if s.len() == 10 && all_digits(s.take(4)) && s[4] == '-' && all_digits(s.subrange(5, 7))
        && s[7] == '-' && all_digits(s.subrange(8, 10)) {
        let d = Date {
            year: digits_value(s.take(4)) as u32,
            month: digits_value(s.subrange(5, 7)) as u32,
            day: digits_value(s.subrange(8, 10)) as u32,
        };
        if d.valid() {
            Some(d)
        } else {
            None
        }
    } else {
        None
    }
}

/// A date as ten characters.
pub open spec fn date_text(d: Date) -> Seq<char> {
    digits_of(d.year as int, 4).push('-') + digits_of(d.month as int, 2).push('-') + digits_of(
        d.day as int,
        2,
    )
}

/// The unit that a letter names.
pub open spec fn unit_of(c: char) -> Option<Unit> {
    if c == 'd' {
        Some(Unit::Day)
    } else if c == 'w' {
        Some(Unit::Week)
    } else if c == 'm' {
        Some(Unit::Month)
    } else if c == 'y' {
        Some(Unit::Year)
    } else {
        None
    }
}

/// The span that a text writes: an optional sign, one to four digits, and a
/// unit letter.
pub open spec fn span_in(s: Seq<char>) -> Option<Span> {
    let from: int = if s.len() > 0 && (s[0] == '-' || s[0] == '+') {
        1
    } else {
        0
    };
    let digits = s.subrange(from, s.len() - 1);
    if s.len() < from + 2 || s.len() > from + 5 || !all_digits(digits) || unit_of(
        s.last(),
    ) is None {
        None
    } else {
        let n = digits_value(digits);
        Some(
            Span {
                count: (if s[0] == '-' {
                    -n
                } else {
                    n
                }) as i32,
                unit: unit_of(s.last())->0,
            },
        )
    }
}

/// The value of the digits from `from` to `to`; `None` when one is no digit.
fn number_at(s: &Vec<char>, from: usize, to: usize) -> (r: Option<u32>)
    requires
        from <= to <= s.len(),
        to - from <= 4,
    ensures
        r is Some == all_digits(s@.subrange(from as int, to as int)),
        r matches Some(v) ==> v == digits_value(s@.subrange(from as int, to as int)) && v <= 9999,
{
    let mut v: u32 = 0;
    let mut i: usize = from;
    let ghost mut bound: int = 1;
    proof {
        assert(s@.subrange(from as int, from as int) =~= Seq::<char>::empty());
    }
    while i < to
        invariant
            from <= i <= to <= s.len(),
            to - from <= 4,
            all_digits(s@.subrange(from as int, i as int)),
            v == digits_value(s@.subrange(from as int, i as int)),
            v < bound,
            i - from == 0 ==> bound == 1,
            i - from == 1 ==> bound == 10,
            i - from == 2 ==> bound == 100,
            i - from == 3 ==> bound == 1000,
            i - from == 4 ==> bound == 10000,
        decreases to - i,
    {
        let c: char = s[i];
        let ghost part = s@.subrange(from as int, i + 1);
        proof {
            assert(part.drop_last() =~= s@.subrange(from as int, i as int));
            assert(part.last() == c);
        }
        if !('0' <= c && c <= '9') {
            proof {
                let all = s@.subrange(from as int, to as int);
                assert(all[i - from] == c);
                assert(!is_digit(all[i - from]));
            }
            return None;
        }
        v = v * 10 + (c as u32 - '0' as u32);
        proof {
            bound = bound * 10;
            assert forall|k: int| 0 <= k < part.len() implies is_digit(#[trigger] part[k]) by {
                if k < i - from {
                    assert(part[k] == s@.subrange(from as int, i as int)[k]);
                }
            }
        }
        i += 1;
    }
    Some(v)
}

/// The date that a text writes, if it writes one.
pub fn parse_date(s: &Vec<char>) -> (r: Option<Date>)
    ensures
        r == date_in(s@),
        r matches Some(d) ==> d.valid(),
{
    if s.len() != 10 || s[4] != '-' || s[7] != '-' {
        return None;
    }
    proof {
        assert(s@.subrange(0, 4) =~= s@.take(4));
    }
    match (number_at(s, 0, 4), number_at(s, 5, 7), number_at(s, 8, 10)) {
        (Some(year), Some(month), Some(day)) => {
            if 1 <= month && month <= 12 && 1 <= day && day <= days_in_month(year, month) {
                Some(Date { year, month, day })
            } else {
                None
            }
        },
        _ => None,
    }
}

/// The span that a text writes, if it writes one.
pub fn parse_span(s: &Vec<char>) -> (r: Option<Span>)
    ensures
        r == span_in(s@),
        r matches Some(p) ==> -9999 <= p.count <= 9999,
{
    let len: usize = s.len();
    let from: usize = if len > 0 && (s[0] == '-' || s[0] == '+') {
        1
    } else {
        0
    };
    if len < from + 2 || len > from + 5 {
        return None;
    }
    let last: char = s[len - 1];
    let unit: Unit = if last == 'd' {
        Unit::Day
    } else if last == 'w' {
        Unit::Week
    } else if last == 'm' {
        Unit::Month
    } else if last == 'y' {
        Unit::Year
    } else {
        return None;
    };
    match number_at(s, from, len - 1) {
        Some(n) => {
            let count: i32 = if s[0] == '-' {
                -(n as i32)
            } else {
                n as i32
            };
            Some(Span { count, unit })
        },
        None => None,
    }
}

fn push_digits(out: &mut Vec<char>, v: u32, n: usize)
    requires
        n <= 4,
    ensures
        final(out)@ == old(out)@ + digits_of(v as int, n as nat),
    decreases n,
{
    if n > 0 {
        push_digits(out, v / 10, n - 1);
        let digit: u8 = (v % 10) as u8;
        out.push((48 + digit) as char);
        proof {
            assert(('0' as int + (v as int) % 10) as char == (48 + digit) as char);
            assert(out@ =~= old(out)@ + digits_of(v as int, n as nat));
        }
    } else {
        proof {
            assert(out@ =~= old(out)@ + digits_of(v as int, n as nat));
        }
    }
}

/// A date as ten characters.
pub fn write_date(d: Date) -> (r: Vec<char>)
    ensures
        r@ == date_text(d),
{
    let mut out: Vec<char> = Vec::new();
    push_digits(&mut out, d.year, 4);
    out.push('-');
    push_digits(&mut out, d.month, 2);
    out.push('-');
    push_digits(&mut out, d.day, 2);
    proof {
        assert(out@ =~= date_text(d));
    }
    out
}

proof fn lemma_digits(v: int, n: nat)
    requires
        0 <= v,
    ensures
        digits_of(v, n).len() == n,
        all_digits(digits_of(v, n)),
        n == 4 && v <= 9999 ==> digits_value(digits_of(v, n)) == v,
        n == 2 && v <= 99 ==> digits_value(digits_of(v, n)) == v,
        n == 3 && v <= 999 ==> digits_value(digits_of(v, n)) == v,
        n == 1 && v <= 9 ==> digits_value(digits_of(v, n)) == v,
        n == 0 && v == 0 ==> digits_value(digits_of(v, n)) == v,
    decreases n,
{
    if n > 0 {
        lemma_digits(v / 10, (n - 1) as nat);
        let s = digits_of(v, n);
        let c = ('0' as int + v % 10) as char;
        assert(s.drop_last() =~= digits_of(v / 10, (n - 1) as nat));
        assert(s.last() == c);
        assert(c as int == '0' as int + v % 10);
        assert(is_digit(c));
        assert forall|i: int| 0 <= i < s.len() implies is_digit(#[trigger] s[i]) by {
            if i < n - 1 {
                assert(s[i] == s.drop_last()[i]);
            }
        }
    }
}

/// A written date reads back as the same date.
pub proof fn written_date_reads_back(d: Date)
    requires
        d.valid(),
    ensures
        date_text(d).len() == 10,
        date_in(date_text(d)) == Some(d),
{
    lemma_digits(d.year as int, 4);
    lemma_digits(d.month as int, 2);
    lemma_digits(d.day as int, 2);
    let s = date_text(d);
    assert(s.take(4) =~= digits_of(d.year as int, 4));
    assert(s.subrange(5, 7) =~= digits_of(d.month as int, 2));
    assert(s.subrange(8, 10) =~= digits_of(d.day as int, 2));
}

proof fn lemma_plus_days_valid(d: Date, n: int)
    requires
        d.valid(),
    ensures
        plus_days(d, n) matches Some(e) ==> e.valid(),
    decreases
            (if n < 0 {
                -n
            } else {
                n
            }),
{
    if n > 0 {
        if let Some(e) = day_after(d) {
            lemma_plus_days_valid(e, n - 1);
        }
    } else if n < 0 {
        if let Some(e) = day_before(d) {
            lemma_plus_days_valid(e, n + 1);
        }
    }
}

/// Moving a date gives a date.
pub proof fn shifted_is_valid(d: Date, by: Span)
    requires
        d.valid(),
    ensures
        shifted(d, by) matches Some(e) ==> e.valid(),
{
    match by.unit {
        Unit::Day => lemma_plus_days_valid(d, by.count as int),
        Unit::Week => lemma_plus_days_valid(d, by.count * 7),
        Unit::Month => {},
        Unit::Year => {},
    }
}

/// A later day has the higher rank.
pub proof fn the_next_day_ranks_higher(d: Date)
    requires
        d.valid(),
    ensures
        day_after(d) matches Some(e) ==> e.valid() && d.rank() < e.rank(),
        day_before(d) matches Some(e) ==> e.valid() && e.rank() < d.rank(),
{
}

} // verus!
