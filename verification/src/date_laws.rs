//! What dates and spans mean, said of their digits and of the calendar.
use crate::date;
use crate::date::{Date, Span, Unit};
use crate::text;
use vstd::prelude::*;

verus! {

/// What the digit says.
pub open spec fn digit(c: char) -> int {
    c as int - 48
}

/// `a` lies before `b` in the calendar.
pub open spec fn earlier(a: Date, b: Date) -> bool {
    ||| a.year < b.year
    ||| a.year == b.year && a.month < b.month
    ||| a.year == b.year && a.month == b.month && a.day < b.day
}

/// The lengths of the months.
pub open spec fn days_of(year: int, month: int) -> int {
    if month == 2 {
        28 + (if year % 400 == 0 || year % 4 == 0 && year % 100 != 0 {
            1int
        } else {
            0int
        })
    } else if month <= 7 {
        30 + month % 2
    } else {
        31 - month % 2
    }
}

/// There is such a day.
pub open spec fn is_day(d: Date) -> bool {
    &&& d.year <= 9999
    &&& 1 <= d.month <= 12
    &&& 1 <= d.day <= days_of(d.year as int, d.month as int)
}

/// The days that count as dates are those of the calendar.
pub proof fn dates_are_days_of_the_calendar(d: Date)
    ensures
        d.valid() <==> is_day(d),
        1 <= d.month <= 12 ==> date::month_len(d.year as int, d.month as int) == days_of(
            d.year as int,
            d.month as int,
        ),
{
}

proof fn lemma_two(s: Seq<char>)
    requires
        s.len() == 2,
    ensures
        date::digits_value(s) == digit(s[0]) * 10 + digit(s[1]),
{
    reveal_with_fuel(date::digits_value, 3);
    assert(s.drop_last().drop_last() =~= Seq::<char>::empty());
}

proof fn lemma_four(s: Seq<char>)
    requires
        s.len() == 4,
    ensures
        date::digits_value(s) == digit(s[0]) * 1000 + digit(s[1]) * 100 + digit(s[2]) * 10 + digit(
            s[3],
        ),
{
    let t = s.drop_last().drop_last();
    lemma_two(t);
    assert(date::digits_value(s.drop_last()) == date::digits_value(t) * 10 + digit(s[2]));
    assert(date::digits_value(s) == date::digits_value(s.drop_last()) * 10 + digit(s[3]));
}

/// Ten characters are read as a date exactly when they are four digits, a dash,
/// two digits, a dash and two digits, and there is such a day; the digits are
/// its year, month and day.
pub proof fn dates_are_read_digit_by_digit(s: Seq<char>, d: Date)
    ensures
        date::date_in(s) == Some(d) <==> {
            &&& s.len() == 10
            &&& s[4] == '-' && s[7] == '-'
            &&& forall|i: int|
                0 <= i < 10 && i != 4 && i != 7 ==> '0' <= #[trigger] s[i] && s[i] <= '9'
            &&& d.year == digit(s[0]) * 1000 + digit(s[1]) * 100 + digit(s[2]) * 10 + digit(s[3])
            &&& d.month == digit(s[5]) * 10 + digit(s[6])
            &&& d.day == digit(s[8]) * 10 + digit(s[9])
            &&& is_day(d)
        },
{
    if s.len() == 10 {
        let y = s.take(4);
        let m = s.subrange(5, 7);
        let n = s.subrange(8, 10);
        lemma_four(y);
        lemma_two(m);
        lemma_two(n);
        if date::date_in(s) == Some(d) {
            assert forall|i: int| 0 <= i < 10 && i != 4 && i != 7 implies '0' <= #[trigger] s[i]
                && s[i] <= '9' by {
                if i < 4 {
                    assert(date::is_digit(y[i]));
                } else if i < 7 {
                    assert(date::is_digit(m[i - 5]));
                } else {
                    assert(date::is_digit(n[i - 8]));
                }
            }
            lemma_small(y[0], y[1], y[2], y[3], m[0], m[1], n[0], n[1]);
        }
        if forall|i: int|
            0 <= i < 10 && i != 4 && i != 7 ==> '0' <= #[trigger] s[i] && s[i] <= '9' {
            assert(date::all_digits(y));
            assert(date::all_digits(m));
            assert(date::all_digits(n));
            lemma_small(s[0], s[1], s[2], s[3], s[5], s[6], s[8], s[9]);
        }
    }
}

proof fn lemma_small(
    a: char,
    b: char,
    c: char,
    d: char,
    e: char,
    f: char,
    g: char,
    h: char,
)
    requires
        date::is_digit(a) && date::is_digit(b) && date::is_digit(c) && date::is_digit(d),
        date::is_digit(e) && date::is_digit(f) && date::is_digit(g) && date::is_digit(h),
    ensures
        0 <= digit(a) * 1000 + digit(b) * 100 + digit(c) * 10 + digit(d) <= 9999,
        0 <= digit(e) * 10 + digit(f) <= 99,
        0 <= digit(g) * 10 + digit(h) <= 99,
{
}

/// Written dates go, as texts, in the order of the calendar.
pub proof fn written_dates_go_by_the_calendar(a: Seq<char>, b: Seq<char>, x: Date, y: Date)
    requires
        date::date_in(a) == Some(x),
        date::date_in(b) == Some(y),
    ensures
        text::text_le(a, b) <==> x == y || earlier(x, y),
        a == b <==> x == y,
{
    dates_are_read_digit_by_digit(a, x);
    dates_are_read_digit_by_digit(b, y);
    text::texts_go_by_their_first_difference(a, b);
    if exists|i: int| #[trigger] text::differs_first_at(a, b, i) {
        let i = choose|i: int| #[trigger] text::differs_first_at(a, b, i);
        assert(forall|k: int| 0 <= k < i ==> a[k] == b[k]);
        assert(i != 4 && i != 7);
        assert(a[0] == b[0] || i == 0);
        assert(a[1] == b[1] || i <= 1);
        assert(a[2] == b[2] || i <= 2);
        assert(a[3] == b[3] || i <= 3);
        assert(a[5] == b[5] || i <= 5);
        assert(a[6] == b[6] || i <= 6);
        assert(a[8] == b[8] || i <= 8);
    } else {
        assert(a =~= b);
    }
}

/// A rank is higher exactly for a later day.
pub proof fn ranks_go_by_the_calendar(x: Date, y: Date)
    requires
        x.valid(),
        y.valid(),
    ensures
        x.rank() < y.rank() <==> earlier(x, y),
        x.rank() == y.rank() <==> x == y,
{
}

/// The day after a date is a later one with none between the two; only the
/// last day of 9999 has none.
pub proof fn the_next_day_is_next(d: Date, other: Date)
    requires
        d.valid(),
        other.valid(),
        earlier(d, other),
    ensures
        date::day_after(d) matches Some(e) && e.valid() && earlier(d, e) && !earlier(other, e),
        date::day_before(other) matches Some(e) && e.valid() && earlier(e, other) && !earlier(e, d),
{
}

/// Only the first and the last day have no day before or after them.
pub proof fn only_the_ends_have_no_neighbour(d: Date)
    requires
        d.valid(),
    ensures
        date::day_after(d) is None <==> d == (Date { year: 9999, month: 12, day: 31 }),
        date::day_before(d) is None <==> d == (Date { year: 0, month: 1, day: 1 }),
{
}

/// The day before the next day is the day itself, and the other way round.
pub proof fn next_and_previous_undo_each_other(d: Date)
    requires
        d.valid(),
    ensures
        date::day_after(d) matches Some(e) ==> date::day_before(e) == Some(d),
        date::day_before(d) matches Some(e) ==> date::day_after(e) == Some(d),
{
}

/// One day more is the day after, one day less the day before.
pub proof fn days_are_counted_one_by_one(d: Date, n: int)
    requires
        d.valid(),
    ensures
        date::plus_days(d, 0) == Some(d),
        n >= 0 ==> date::plus_days(d, n + 1) == (match date::plus_days(d, n) {
            Some(e) => date::day_after(e),
            None => None,
        }),
        n <= 0 ==> date::plus_days(d, n - 1) == (match date::plus_days(d, n) {
            Some(e) => date::day_before(e),
            None => None,
        }),
    decreases
            (if n < 0 {
                -n
            } else {
                n
            }),
{
    reveal_with_fuel(date::plus_days, 2);
    if n > 0 {
        if let Some(e) = date::day_after(d) {
            days_are_counted_one_by_one(e, n - 1);
        }
    } else if n < 0 {
        if let Some(e) = date::day_before(d) {
            days_are_counted_one_by_one(e, n + 1);
        }
    }
}

/// Days forth and back lead back.
pub proof fn days_forth_and_back(d: Date, n: int)
    requires
        d.valid(),
    ensures
        date::plus_days(d, n) matches Some(e) ==> {
            &&& e.valid()
            &&& date::plus_days(e, -n) == Some(d)
            &&& n > 0 ==> earlier(d, e)
            &&& n < 0 ==> earlier(e, d)
        },
    decreases
            (if n < 0 {
                -n
            } else {
                n
            }),
{
    if n > 0 {
        if let Some(e) = date::day_after(d) {
            days_forth_and_back(e, n - 1);
            if let Some(f) = date::plus_days(e, n - 1) {
                days_are_counted_one_by_one(f, -(n - 1));
                next_and_previous_undo_each_other(d);
            }
        }
    } else if n < 0 {
        if let Some(e) = date::day_before(d) {
            days_forth_and_back(e, n + 1);
            if let Some(f) = date::plus_days(e, n + 1) {
                days_are_counted_one_by_one(f, -(n + 1));
                next_and_previous_undo_each_other(d);
            }
        }
    }
}

/// Moving by months counts months, and keeps the day of the month unless the
/// month is too short: then it is the month's last. It fails exactly outside
/// the years 0 to 9999.
pub proof fn months_are_counted(d: Date, n: int)
    requires
        d.valid(),
    ensures
        match date::plus_months(d, n) {
            Some(e) => {
                &&& is_day(e)
                &&& e.year * 12 + e.month == d.year * 12 + d.month + n
                &&& e.day <= d.day
                &&& e.day < d.day ==> e.day == days_of(e.year as int, e.month as int)
            },
            None => d.year * 12 + d.month + n < 1 || d.year * 12 + d.month + n > 9999 * 12 + 12,
        },
        date::plus_months(d, n) is Some <==> 1 <= d.year * 12 + d.month + n <= 9999 * 12 + 12,
{
}

/// A week is seven days, and a year keeps the month and moves the year.
pub proof fn units_of_a_span(d: Date, count: i32)
    requires
        d.valid(),
    ensures
        date::shifted(d, Span { count, unit: Unit::Day }) == date::plus_days(d, count as int),
        date::shifted(d, Span { count, unit: Unit::Week }) == date::plus_days(d, 7 * count),
        date::shifted(d, Span { count, unit: Unit::Month }) == date::plus_months(d, count as int),
        match date::shifted(d, Span { count, unit: Unit::Year }) {
            Some(e) => e.year == d.year + count && e.month == d.month && is_day(e) && e.day <= d.day
                && (e.day < d.day ==> e.day == days_of(e.year as int, e.month as int)),
            None => d.year + count < 0 || d.year + count > 9999,
        },
{
    months_are_counted(d, count * 12);
}

/// A span is an optional sign, one to four digits and a letter; the letter says
/// the unit, the digits and the sign how many.
pub proof fn spans_are_read(sign: Seq<char>, digits: Seq<char>, letter: char)
    requires
        sign.len() == 0 || sign == seq!['+'] || sign == seq!['-'],
        1 <= digits.len() <= 4,
        date::all_digits(digits),
    ensures
        date::span_in(sign + digits + seq![letter]) matches Some(by) ==> {
            &&& by.count == (if sign == seq!['-'] {
                -date::digits_value(digits)
            } else {
                date::digits_value(digits)
            })
            &&& by.unit == Unit::Day <==> letter == 'd'
            &&& by.unit == Unit::Week <==> letter == 'w'
            &&& by.unit == Unit::Month <==> letter == 'm'
            &&& by.unit == Unit::Year <==> letter == 'y'
        },
        date::span_in(sign + digits + seq![letter]) is Some <==> letter == 'd' || letter == 'w'
            || letter == 'm' || letter == 'y',
{
    let s = sign + digits + seq![letter];
    let from: int = sign.len() as int;
    assert(s.subrange(from, s.len() - 1) =~= digits);
    assert(s.last() == letter);
    assert(date::is_digit(digits[0]));
    if sign.len() == 0 {
        assert(s[0] == digits[0]);
    }
    lemma_digits_bounds(digits);
}

proof fn lemma_digits_bounds(s: Seq<char>)
    requires
        s.len() <= 4,
        date::all_digits(s),
    ensures
        0 <= date::digits_value(s) <= 9999,
        s.len() <= 3 ==> date::digits_value(s) <= 999,
        s.len() <= 2 ==> date::digits_value(s) <= 99,
        s.len() <= 1 ==> date::digits_value(s) <= 9,
        s.len() == 0 ==> date::digits_value(s) == 0,
    decreases s.len(),
{
    if s.len() > 0 {
        assert forall|i: int| 0 <= i < s.drop_last().len() implies date::is_digit(
            #[trigger] s.drop_last()[i],
        ) by {
            assert(date::is_digit(s[i]));
        }
        lemma_digits_bounds(s.drop_last());
        assert(date::is_digit(s[s.len() - 1]));
    }
}

/// Whatever is read as a span has that shape.
pub proof fn only_spans_are_read(s: Seq<char>)
    requires
        date::span_in(s) is Some,
    ensures
        ({
            let from: int = if s[0] == '+' || s[0] == '-' {
                1
            } else {
                0
            };
            &&& from + 2 <= s.len() <= from + 5
            &&& forall|i: int| from <= i < s.len() - 1 ==> '0' <= #[trigger] s[i] && s[i] <= '9'
            &&& s.last() == 'd' || s.last() == 'w' || s.last() == 'm' || s.last() == 'y'
        }),
{
    let from: int = if s.len() > 0 && (s[0] == '+' || s[0] == '-') {
        1
    } else {
        0
    };
    let digits = s.subrange(from, s.len() - 1);
    assert forall|i: int| from <= i < s.len() - 1 implies '0' <= #[trigger] s[i] && s[i] <= '9' by {
        assert(date::is_digit(digits[i - from]));
    }
}

/// The digits of a number weigh ten times what those behind them do.
pub proof fn digits_weigh_by_place(s: Seq<char>)
    ensures
        s.len() == 1 ==> date::digits_value(s) == digit(s[0]),
        s.len() == 2 ==> date::digits_value(s) == 10 * digit(s[0]) + digit(s[1]),
        s.len() > 0 ==> date::digits_value(s) == 10 * date::digits_value(s.drop_last()) + digit(
            s.last(),
        ),
{
    reveal_with_fuel(date::digits_value, 3);
    if s.len() == 1 {
        assert(s.drop_last() =~= Seq::<char>::empty());
    }
    if s.len() == 2 {
        lemma_two(s);
    }
}

/// A date is written as its digits: the text that is read as it.
pub proof fn dates_are_written_digit_by_digit(d: Date)
    requires
        d.valid(),
    ensures
        ({
            let s = date::date_text(d);
            &&& s.len() == 10
            &&& s[4] == '-' && s[7] == '-'
            &&& forall|i: int|
                0 <= i < 10 && i != 4 && i != 7 ==> '0' <= #[trigger] s[i] && s[i] <= '9'
            &&& d.year == digit(s[0]) * 1000 + digit(s[1]) * 100 + digit(s[2]) * 10 + digit(s[3])
            &&& d.month == digit(s[5]) * 10 + digit(s[6])
            &&& d.day == digit(s[8]) * 10 + digit(s[9])
        }),
{
    date::written_date_reads_back(d);
    dates_are_read_digit_by_digit(date::date_text(d), d);
}

} // verus!
