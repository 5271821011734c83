use vstd::prelude::*;
use crate::text::string_from_chars;

verus! {

/// A local calendar date and clock time, held as plain fields. This is the
/// library's own representation of a moment: deadline parsing produces it,
/// formatting renders it, and calendar arithmetic walks it day by day.
#[derive(Debug, Clone, Copy, PartialEq, Eq, Structural)]
pub struct DateTime {
    pub year: u64,
    pub month: u64,
    pub day: u64,
    pub hour: u64,
    pub minute: u64,
    pub second: u64,
}

pub open spec fn is_leap(y: int) -> bool {
    y % 4 == 0 && (y % 100 != 0 || y % 400 == 0)
}

pub open spec fn days_in_month(y: int, m: int) -> int {
    if m == 2 {
        if is_leap(y) {
            29
        } else {
            28
        }
    } else if m == 4 || m == 6 || m == 9 || m == 11 {
        30
    } else {
        31
    }
}

impl DateTime {
    /// A valid calendar date with a valid clock time.
    pub open spec fn wf(self) -> bool {
        &&& 1 <= self.year
        &&& 1 <= self.month <= 12
        &&& 1 <= self.day <= days_in_month(self.year as int, self.month as int)
        &&& self.hour < 24
        &&& self.minute < 60
        &&& self.second < 60
    }
}

/// The calendar day after this one; the clock time is kept.
pub open spec fn spec_next_day(d: DateTime) -> DateTime {
    if d.day < days_in_month(d.year as int, d.month as int) {
        DateTime { day: (d.day + 1) as u64, ..d }
    } else if d.month < 12 {
        DateTime { day: 1, month: (d.month + 1) as u64, ..d }
    } else {
        DateTime { day: 1, month: 1, year: (d.year + 1) as u64, ..d }
    }
}

/// The date `n` days after this one.
pub open spec fn spec_plus_days(d: DateTime, n: int) -> DateTime
    decreases n,
{
    if n <= 0 {
        d
    } else {
        spec_next_day(spec_plus_days(d, n - 1))
    }
}

/// What adding a non-negative number of minutes does: roll the clock time,
/// then walk whole days.
pub open spec fn spec_add_minutes(d: DateTime, mins: int) -> DateTime {
    let t = d.hour * 60 + d.minute + mins;
    spec_plus_days(
        DateTime { hour: ((t % 1440) / 60) as u64, minute: (t % 60) as u64, ..d },
        t / 1440,
    )
}

/// Stepping one day preserves validity and raises the year by at most one.
proof fn lemma_next_day_wf(d: DateTime)
    requires
        d.wf(),
        d.year < u64::MAX,
    ensures
        spec_next_day(d).wf(),
        d.year <= spec_next_day(d).year <= d.year + 1,
{
}

/// Walking days preserves validity; the year grows by at most one per day.
proof fn lemma_plus_days_wf(d: DateTime, n: int)
    requires
        d.wf(),
        0 <= n,
        d.year + n <= u64::MAX,
    ensures
        spec_plus_days(d, n).wf(),
        d.year <= spec_plus_days(d, n).year <= d.year + n,
    decreases n,
{
    if n > 0 {
        lemma_plus_days_wf(d, n - 1);
        lemma_next_day_wf(spec_plus_days(d, n - 1));
    }
}

/// Exec mirror of `days_in_month`.
pub fn days_in_month_x(y: u64, m: u64) -> (r: u64)
    requires
        1 <= m <= 12,
    ensures
        r == days_in_month(y as int, m as int),
{
    if m == 2 {
        if y % 4 == 0 && (y % 100 != 0 || y % 400 == 0) {
            29
        } else {
            28
        }
    } else if m == 4 || m == 6 || m == 9 || m == 11 {
        30
    } else {
        31
    }
}

/// The calendar day `n` days after `d`, with the clock time kept.
pub fn add_days(d: DateTime, n: u64) -> (r: DateTime)
    requires
        d.wf(),
        d.year + n <= u64::MAX,
    ensures
        r == spec_plus_days(d, n as int),
        r.wf(),
{
    let mut cur = d;
    let mut i: u64 = 0;
    while i < n
        invariant
            i <= n,
            d.wf(),
            d.year + n <= u64::MAX,
            cur == spec_plus_days(d, i as int),
            cur.wf(),
            cur.year <= d.year + i,
        decreases n - i,
    {
        proof {
            lemma_plus_days_wf(d, i as int);
            lemma_next_day_wf(cur);
        }
        let dim = days_in_month_x(cur.year, cur.month);
        if cur.day < dim {
            cur = DateTime { day: cur.day + 1, ..cur };
        } else if cur.month < 12 {
            cur = DateTime { day: 1, month: cur.month + 1, ..cur };
        } else {
            cur = DateTime { day: 1, month: 1, year: cur.year + 1, ..cur };
        }
        i = i + 1;
    }
    cur
}

/// The moment `mins` minutes after `d`: the clock rolls over into whole days.
pub fn add_minutes(d: DateTime, mins: u64) -> (r: DateTime)
    requires
        d.wf(),
        mins <= 2_000_000_000_000,
        d.year + mins / 1440 + 2 <= u64::MAX,
    ensures
        r == spec_add_minutes(d, mins as int),
        r.wf(),
{
    let t = d.hour * 60 + d.minute + mins;
    let base = DateTime { hour: (t % 1440) / 60, minute: t % 60, ..d };
    proof {
        assert(base.wf());
        assert(t / 1440 <= mins / 1440 + 1) by (nonlinear_arith)
            requires
                t <= mins + 1439,
                0 <= mins,
        ;
    }
    add_days(base, t / 1440)
}

pub open spec fn digit_char(d: int) -> char {
    if d == 0 {
        '0'
    } else if d == 1 {
        '1'
    } else if d == 2 {
        '2'
    } else if d == 3 {
        '3'
    } else if d == 4 {
        '4'
    } else if d == 5 {
        '5'
    } else if d == 6 {
        '6'
    } else if d == 7 {
        '7'
    } else if d == 8 {
        '8'
    } else {
        '9'
    }
}

/// The decimal digits of a non-negative number, most significant first.
pub open spec fn dec_digits(n: int) -> Seq<char>
    decreases n,
{
    if n < 10 {
        seq![digit_char(n)]
    } else {
        dec_digits(n / 10).push(digit_char(n % 10))
    }
}

/// A number below 100 as exactly two digits.
pub open spec fn pad2(n: int) -> Seq<char> {
    seq![digit_char(n / 10), digit_char(n % 10)]
}

/// A number below 10000 as exactly four digits.
pub open spec fn pad4(n: int) -> Seq<char> {
    seq![digit_char(n / 1000), digit_char((n / 100) % 10), digit_char((n / 10) % 10), digit_char(
        n % 10,
    )]
}

/// The text a moment is stored and shown as: a zero-padded
/// `YYYY-MM-DD HH:MM:SS`, with more than four year digits only past the year
/// 9999.
pub open spec fn spec_format(d: DateTime) -> Seq<char> {
    (if d.year <= 9999 {
        pad4(d.year as int)
    } else {
        dec_digits(d.year as int)
    }) + seq!['-'] + pad2(d.month as int) + seq!['-'] + pad2(d.day as int) + seq![' '] + pad2(
        d.hour as int,
    ) + seq![':'] + pad2(d.minute as int) + seq![':'] + pad2(d.second as int)
}

fn digit_char_x(d: u64) -> (c: char)
    requires
        d < 10,
    ensures
        c == digit_char(d as int),
{
    if d == 0 {
        '0'
    } else if d == 1 {
        '1'
    } else if d == 2 {
        '2'
    } else if d == 3 {
        '3'
    } else if d == 4 {
        '4'
    } else if d == 5 {
        '5'
    } else if d == 6 {
        '6'
    } else if d == 7 {
        '7'
    } else if d == 8 {
        '8'
    } else {
        '9'
    }
}

/// The decimal digits of `n`, appended to `out`.
pub fn push_dec_digits(out: &mut Vec<char>, n: u64)
    ensures
        final(out)@ == old(out)@ + dec_digits(n as int),
    decreases n,
{
    if n < 10 {
        out.push(digit_char_x(n));
        proof {
            assert(final(out)@ =~= old(out)@ + dec_digits(n as int));
        }
    } else {
        push_dec_digits(out, n / 10);
        out.push(digit_char_x(n % 10));
        proof {
            assert(final(out)@ =~= old(out)@ + dec_digits(n as int));
        }
    }
}

fn push_pad2(out: &mut Vec<char>, n: u64)
    requires
        n < 100,
    ensures
        final(out)@ == old(out)@ + pad2(n as int),
{
    out.push(digit_char_x(n / 10));
    out.push(digit_char_x(n % 10));
    proof {
        assert(final(out)@ =~= old(out)@ + pad2(n as int));
    }
}

/// Render a moment as its stored text form.
pub fn format_datetime(d: &DateTime) -> (s: String)
    requires
        d.wf(),
    ensures
        s@ == spec_format(*d),
{
    let mut v: Vec<char> = Vec::new();
    if d.year <= 9999 {
        v.push(digit_char_x(d.year / 1000));
        v.push(digit_char_x((d.year / 100) % 10));
        v.push(digit_char_x((d.year / 10) % 10));
        v.push(digit_char_x(d.year % 10));
        proof {
            assert(v@ =~= pad4(d.year as int));
        }
    } else {
        push_dec_digits(&mut v, d.year);
        proof {
            assert(v@ =~= dec_digits(d.year as int));
        }
    }
    v.push('-');
    push_pad2(&mut v, d.month);
    v.push('-');
    push_pad2(&mut v, d.day);
    v.push(' ');
    push_pad2(&mut v, d.hour);
    v.push(':');
    push_pad2(&mut v, d.minute);
    v.push(':');
    push_pad2(&mut v, d.second);
    proof {
        assert(v@ =~= spec_format(*d));
    }
    string_from_chars(&v)
}

} // verus!
