use vstd::prelude::*;
use vstd::string::StrSliceExecFns;
use crate::datetime::{
    DateTime, days_in_month, spec_plus_days, spec_add_minutes, add_days, add_minutes,
};
use crate::errors::TodoError;
use crate::path::{is_digit, digit_val, all_digits, digits_value};
use chrono::{Datelike, Timelike};

verus! {

/// The largest magnitude one offset token may carry, and the largest total
/// offset in minutes (a million days): machine limits that keep the calendar
/// walk free of overflow. Anything larger is rejected as an invalid deadline.
pub const MAX_MAGNITUDE: u64 = 1_000_000_000;

pub const MAX_OFFSET_MINUTES: u64 = 1_440_000_000;

/// Case-insensitive match of one character against a lowercase letter.
pub open spec fn ci_eq(a: char, k: char) -> bool {
    a as u32 == k as u32 || a as u32 == k as u32 - 32
}

/// Case-insensitive match against a lowercase keyword.
pub open spec fn matches_kw(s: Seq<char>, kw: Seq<char>) -> bool {
    s.len() == kw.len() && forall|i: int| 0 <= i < s.len() ==> ci_eq(s[i], #[trigger] kw[i])
}

pub open spec fn val2(s: Seq<char>, i: int) -> int {
    digit_val(s[i]) * 10 + digit_val(s[i + 1])
}

pub open spec fn val4(s: Seq<char>, i: int) -> int {
    ((digit_val(s[i]) * 10 + digit_val(s[i + 1])) * 10 + digit_val(s[i + 2])) * 10 + digit_val(
        s[i + 3],
    )
}

pub open spec fn digits_at(s: Seq<char>, i: int, n: int) -> bool {
    forall|k: int| i <= k < i + n ==> is_digit(#[trigger] s[k])
}

/// Whether date and clock fields form a valid moment.
pub open spec fn fields_ok(y: int, m: int, d: int, h: int, mi: int) -> bool {
    &&& 1 <= y
    &&& 1 <= m <= 12
    &&& 1 <= d <= days_in_month(y, m)
    &&& h < 24
    &&& mi < 60
}

/// First grammar rule: `YYYY-MM-DD HH:MM`, an exact local date and time;
/// seconds are zero.
pub open spec fn spec_abs_datetime(s: Seq<char>) -> Option<DateTime> {
    if s.len() == 16 && digits_at(s, 0, 4) && s[4] == '-' && digits_at(s, 5, 2) && s[7] == '-'
        && digits_at(s, 8, 2) && s[10] == ' ' && digits_at(s, 11, 2) && s[13] == ':' && digits_at(
        s,
        14,
        2,
    ) && fields_ok(val4(s, 0), val2(s, 5), val2(s, 8), val2(s, 11), val2(s, 14)) {
        Some(
            DateTime {
                year: val4(s, 0) as u64,
                month: val2(s, 5) as u64,
                day: val2(s, 8) as u64,
                hour: val2(s, 11) as u64,
                minute: val2(s, 14) as u64,
                second: 0,
            },
        )
    } else {
        None
    }
}

/// Second grammar rule: `YYYY-MM-DD`, a bare date; the time defaults to the
/// end of that day, 23:59:59.
pub open spec fn spec_abs_date(s: Seq<char>) -> Option<DateTime> {
    if s.len() == 10 && digits_at(s, 0, 4) && s[4] == '-' && digits_at(s, 5, 2) && s[7] == '-'
        && digits_at(s, 8, 2) && fields_ok(val4(s, 0), val2(s, 5), val2(s, 8), 0, 0) {
        Some(
            DateTime {
                year: val4(s, 0) as u64,
                month: val2(s, 5) as u64,
                day: val2(s, 8) as u64,
                hour: 23,
                minute: 59,
                second: 59,
            },
        )
    } else {
        None
    }
}

/// Third grammar rule: the keywords `today`, `tomorrow` and `nextweek`,
/// case-insensitively, meaning that many days from now at 23:59:59.
pub open spec fn spec_keyword_days(s: Seq<char>) -> Option<int> {
    if matches_kw(s, seq!['t', 'o', 'd', 'a', 'y']) {
        Some(0)
    } else if matches_kw(s, seq!['t', 'o', 'm', 'o', 'r', 'r', 'o', 'w']) {
        Some(1)
    } else if matches_kw(s, seq!['n', 'e', 'x', 't', 'w', 'e', 'e', 'k']) {
        Some(7)
    } else {
        None
    }
}

/// The end of the day of `d`: the same date at 23:59:59.
pub open spec fn end_of_day(d: DateTime) -> DateTime {
    DateTime { hour: 23, minute: 59, second: 59, ..d }
}

pub open spec fn is_space(c: char) -> bool {
    c == ' ' || c == '\t' || c == '\n' || c == '\r'
}

/// Whether the character at `i` is whitespace.
fn space_at(s: &str, i: usize) -> (b: bool)
    requires
        i < s@.len(),
    ensures
        b == is_space(s@[i as int]),
{
    let c = s.get_char(i);
    c == ' ' || c == '\t' || c == '\n' || c == '\r'
}

pub open spec fn ends_with(t: Seq<char>, suf: Seq<char>) -> bool {
    t.len() >= suf.len() && t.subrange(t.len() - suf.len(), t.len() as int) == suf
}

/// The unit a token carries, as (suffix length, minutes per unit): days,
/// hours or minutes, written out or abbreviated. `None` when no unit name
/// ends the token. At most one name can end a given token, since the names
/// pairwise end differently.
pub open spec fn unit_of(t: Seq<char>) -> Option<(int, int)> {
    if ends_with(t, seq!['d', 'a', 'y', 's']) {
        Some((4int, 1440int))
    } else if ends_with(t, seq!['d', 'a', 'y']) {
        Some((3int, 1440int))
    } else if ends_with(t, seq!['d']) {
        Some((1int, 1440int))
    } else if ends_with(t, seq!['h', 'o', 'u', 'r', 's']) {
        Some((5int, 60int))
    } else if ends_with(t, seq!['h', 'o', 'u', 'r']) {
        Some((4int, 60int))
    } else if ends_with(t, seq!['h']) {
        Some((1int, 60int))
    } else if ends_with(t, seq!['m', 'i', 'n', 'u', 't', 'e', 's']) {
        Some((7int, 1int))
    } else if ends_with(t, seq!['m', 'i', 'n', 'u', 't', 'e']) {
        Some((6int, 1int))
    } else if ends_with(t, seq!['m', 'i', 'n']) {
        Some((3int, 1int))
    } else if ends_with(t, seq!['m']) {
        Some((1int, 1int))
    } else {
        None
    }
}

/// What one whitespace-separated token contributes, in minutes: a magnitude
/// of digits followed by a recognized unit contributes their product; a
/// token without a recognized unit is ignored and contributes zero; a
/// recognized unit with a bad magnitude (empty, non-digits, or over
/// `MAX_MAGNITUDE`) makes the whole offset invalid.
pub open spec fn token_minutes(t: Seq<char>) -> Option<int> {
    match unit_of(t) {
        None => Some(0),
        Some((sl, unit)) => {
            let mag = t.subrange(0, t.len() - sl);
            if mag.len() == 0 || !all_digits(mag) || digits_value(mag) > MAX_MAGNITUDE {
                None
            } else {
                Some(digits_value(mag) * unit)
            }
        },
    }
}

/// The position of the first whitespace at or after `pos`, or the length.
pub open spec fn first_space_from(s: Seq<char>, pos: int) -> int
    decreases s.len() - pos,
{
    if pos < 0 || pos >= s.len() {
        s.len() as int
    } else if is_space(s[pos]) {
        pos
    } else {
        first_space_from(s, pos + 1)
    }
}

/// The total offset in minutes from `pos` on: the sum of the tokens'
/// contributions, or `None` when any token is invalid. The bounds guard on
/// `e` is never taken; it keeps the recursion measure evident.
pub open spec fn spec_offset_from(s: Seq<char>, pos: int) -> Option<int>
    decreases s.len() - pos,
{
    if pos < 0 {
        None
    } else if pos >= s.len() {
        Some(0)
    } else if is_space(s[pos]) {
        spec_offset_from(s, pos + 1)
    } else {
        let e = first_space_from(s, pos);
        if e <= pos || e > s.len() {
            None
        } else {
            match token_minutes(s.subrange(pos, e)) {
                None => None,
                Some(v) => match spec_offset_from(s, e) {
                    None => None,
                    Some(rest) => Some(v + rest),
                },
            }
        }
    }
}

/// The whole deadline grammar, tried in order against the text: exact date
/// and time; bare date at end of day; a keyword relative to `now`; a `+`
/// followed by offset tokens added to `now`, provided the total stays within
/// `MAX_OFFSET_MINUTES`. `None` when no rule matches.
pub open spec fn spec_deadline_at(s: Seq<char>, now: DateTime) -> Option<DateTime> {
    if spec_abs_datetime(s) is Some {
        spec_abs_datetime(s)
    } else if spec_abs_date(s) is Some {
        spec_abs_date(s)
    } else if spec_keyword_days(s) is Some {
        Some(spec_plus_days(end_of_day(now), spec_keyword_days(s)->Some_0))
    } else if s.len() >= 1 && s[0] == '+' {
        match spec_offset_from(s, 1) {
            Some(m) => if m <= MAX_OFFSET_MINUTES {
                Some(spec_add_minutes(now, m))
            } else {
                None
            },
            None => None,
        }
    } else {
        None
    }
}

/// Every token contributes a non-negative number of minutes.
proof fn lemma_token_nonneg(t: Seq<char>)
    ensures
        token_minutes(t) matches Some(v) ==> v >= 0,
{
    match unit_of(t) {
        None => {},
        Some((sl, unit)) => {
            let mag = t.subrange(0, t.len() - sl);
            if mag.len() > 0 && all_digits(mag) && digits_value(mag) <= MAX_MAGNITUDE {
                crate::path::lemma_digits_value_nonneg(mag);
            }
        },
    }
}

/// A valid offset total is non-negative.
proof fn lemma_offset_nonneg(s: Seq<char>, pos: int)
    ensures
        spec_offset_from(s, pos) matches Some(m) ==> m >= 0,
    decreases s.len() - pos,
{
    if 0 <= pos && pos < s.len() {
        if is_space(s[pos]) {
            lemma_offset_nonneg(s, pos + 1);
        } else {
            let e = first_space_from(s, pos);
            if pos < e <= s.len() {
                lemma_token_nonneg(s.subrange(pos, e));
                lemma_offset_nonneg(s, e);
            }
        }
    }
}

/// `first_space_from` names the first whitespace.
proof fn lemma_first_space_from(s: Seq<char>, pos: int)
    requires
        0 <= pos <= s.len(),
    ensures
        pos <= first_space_from(s, pos) <= s.len(),
        first_space_from(s, pos) < s.len() ==> is_space(s[first_space_from(s, pos)]),
        forall|k: int| pos <= k < first_space_from(s, pos) ==> !is_space(s[k]),
    decreases s.len() - pos,
{
    if pos < s.len() && !is_space(s[pos]) {
        lemma_first_space_from(s, pos + 1);
    }
}

/// Read the two-digit number at `i`; the caller has checked the digits.
fn read2(s: &str, i: usize) -> (v: u64)
    requires
        i + 2 <= s@.len(),
        i + 2 <= usize::MAX,
        digits_at(s@, i as int, 2),
    ensures
        v == val2(s@, i as int),
        v <= 99,
{
    let c0 = s.get_char(i);
    let c1 = s.get_char(i + 1);
    proof {
        assert(is_digit(s@[i as int]));
        assert(is_digit(s@[i as int + 1]));
    }
    let a = c0 as u32 as u64 - 48;
    let b = c1 as u32 as u64 - 48;
    a * 10 + b
}

/// Whether the character at `i` is an ASCII digit.
fn digit_at(s: &str, i: usize) -> (b: bool)
    requires
        i < s@.len(),
    ensures
        b == is_digit(s@[i as int]),
{
    let c = s.get_char(i) as u32;
    48 <= c && c <= 57
}

/// Whether the range `[i, i + n)` is all ASCII digits.
fn digits_at_x(s: &str, i: usize, n: usize) -> (b: bool)
    requires
        i + n <= s@.len(),
        i + n <= usize::MAX,
    ensures
        b == digits_at(s@, i as int, n as int),
{
    let mut k = i;
    while k < i + n
        invariant
            i <= k <= i + n,
            i + n <= s@.len(),
            i + n <= usize::MAX,
            forall|j: int| i <= j < k ==> is_digit(#[trigger] s@[j]),
        decreases i + n - k,
    {
        if !digit_at(s, k) {
            return false;
        }
        k = k + 1;
    }
    true
}

/// Parse the two absolute forms; `None` when the text has neither shape.
fn parse_absolute(s: &str) -> (r: Option<DateTime>)
    ensures
        spec_abs_datetime(s@) is Some ==> r == spec_abs_datetime(s@),
        spec_abs_datetime(s@) is None && spec_abs_date(s@) is Some ==> r == spec_abs_date(s@),
        spec_abs_datetime(s@) is None && spec_abs_date(s@) is None ==> r is None,
        r matches Some(dt) ==> dt.wf(),
{
    let n = s.unicode_len();
    if n != 16 && n != 10 {
        return None;
    }
    if !(digits_at_x(s, 0, 4) && s.get_char(4) == '-' && digits_at_x(s, 5, 2) && s.get_char(7)
        == '-' && digits_at_x(s, 8, 2)) {
        return None;
    }
    let y = {
        let a = s.get_char(0) as u32 as u64 - 48;
        let b = s.get_char(1) as u32 as u64 - 48;
        let c = s.get_char(2) as u32 as u64 - 48;
        let d = s.get_char(3) as u32 as u64 - 48;
        ((a * 10 + b) * 10 + c) * 10 + d
    };
    let mo = read2(s, 5);
    let dy = read2(s, 8);
    if n == 16 {
        if !(s.get_char(10) == ' ' && digits_at_x(s, 11, 2) && s.get_char(13) == ':' && digits_at_x(
            s,
            14,
            2,
        )) {
            return None;
        }
        let h = read2(s, 11);
        let mi = read2(s, 14);
        if 1 <= y && 1 <= mo && mo <= 12 && 1 <= dy && dy <= crate::datetime::days_in_month_x(
            y,
            mo,
        ) && h < 24 && mi < 60 {
            Some(DateTime { year: y, month: mo, day: dy, hour: h, minute: mi, second: 0 })
        } else {
            None
        }
    } else {
        if 1 <= y && 1 <= mo && mo <= 12 && 1 <= dy && dy <= crate::datetime::days_in_month_x(
            y,
            mo,
        ) {
            Some(DateTime { year: y, month: mo, day: dy, hour: 23, minute: 59, second: 59 })
        } else {
            None
        }
    }
}

/// Case-insensitive comparison of the character at `i` with a lowercase
/// letter.
fn ci_at(s: &str, i: usize, k: char) -> (b: bool)
    requires
        i < s@.len(),
    ensures
        b == ci_eq(s@[i as int], k),
{
    let a = s.get_char(i) as u32;
    let ku = k as u32;
    a == ku || (ku >= 32 && a == ku - 32)
}

/// Match the keywords; `Some` gives the day offset.
fn keyword_days(s: &str) -> (r: Option<u64>)
    ensures
        match spec_keyword_days(s@) {
            Some(k) => r == Some(k as u64),
            None => r is None,
        },
{
    let n = s.unicode_len();
    if n == 5 && ci_at(s, 0, 't') && ci_at(s, 1, 'o') && ci_at(s, 2, 'd') && ci_at(s, 3, 'a')
        && ci_at(s, 4, 'y') {
        proof {
            let kw = seq!['t', 'o', 'd', 'a', 'y'];
            assert forall|i: int| 0 <= i < s@.len() implies ci_eq(s@[i], #[trigger] kw[i]) by {
            }
        }
        return Some(0);
    }
    if n == 8 && ci_at(s, 0, 't') && ci_at(s, 1, 'o') && ci_at(s, 2, 'm') && ci_at(s, 3, 'o')
        && ci_at(s, 4, 'r') && ci_at(s, 5, 'r') && ci_at(s, 6, 'o') && ci_at(s, 7, 'w') {
        proof {
            let kw = seq!['t', 'o', 'm', 'o', 'r', 'r', 'o', 'w'];
            assert forall|i: int| 0 <= i < s@.len() implies ci_eq(s@[i], #[trigger] kw[i]) by {
            }
            assert(!matches_kw(s@, seq!['t', 'o', 'd', 'a', 'y']));
        }
        return Some(1);
    }
    if n == 8 && ci_at(s, 0, 'n') && ci_at(s, 1, 'e') && ci_at(s, 2, 'x') && ci_at(s, 3, 't')
        && ci_at(s, 4, 'w') && ci_at(s, 5, 'e') && ci_at(s, 6, 'e') && ci_at(s, 7, 'k') {
        proof {
            let kw = seq!['n', 'e', 'x', 't', 'w', 'e', 'e', 'k'];
            assert forall|i: int| 0 <= i < s@.len() implies ci_eq(s@[i], #[trigger] kw[i]) by {
            }
            assert(!matches_kw(s@, seq!['t', 'o', 'd', 'a', 'y']));
            assert(!matches_kw(s@, seq!['t', 'o', 'm', 'o', 'r', 'r', 'o', 'w'])) by {
                let kw2 = seq!['t', 'o', 'm', 'o', 'r', 'r', 'o', 'w'];
                if matches_kw(s@, kw2) {
                    assert(ci_eq(s@[0], kw2[0]));
                    assert(ci_eq(s@[0], seq!['n', 'e', 'x', 't', 'w', 'e', 'e', 'k'][0]));
                }
            }
        }
        return Some(7);
    }
    None
}

/// Whether the text `[pos, e)` ends with the given characters.
fn ends_with_x(s: &str, pos: usize, e: usize, kw: &Vec<char>) -> (b: bool)
    requires
        pos <= e <= s@.len(),
        e <= usize::MAX,
    ensures
        b == ends_with(s@.subrange(pos as int, e as int), kw@),
{
    let ghost t = s@.subrange(pos as int, e as int);
    let m = kw.len();
    if e - pos < m {
        return false;
    }
    let mut i: usize = 0;
    while i < m
        invariant
            i <= m,
            m == kw@.len(),
            m <= e - pos,
            pos <= e <= s@.len(),
            e <= usize::MAX,
            t == s@.subrange(pos as int, e as int),
            forall|j: int| 0 <= j < i ==> s@[e - m + j] == kw@[j],
        decreases m - i,
    {
        if s.get_char(e - m + i) != kw[i] {
            proof {
                if ends_with(t, kw@) {
                    assert(t.subrange(t.len() - m, t.len() as int)[i as int] == kw@[i as int]);
                    assert(t[t.len() - m + i] == s@[e - m + i]);
                }
            }
            return false;
        }
        i = i + 1;
    }
    proof {
        assert(t.subrange(t.len() - m, t.len() as int) =~= kw@) by {
            assert(forall|j: int|
                0 <= j < m ==> t.subrange(t.len() - m, t.len() as int)[j] == #[trigger] kw@[j]);
        }
    }
    true
}

/// The unit ending the token `[pos, e)`, as its suffix length and minutes.
fn token_unit(s: &str, pos: usize, e: usize) -> (r: Option<(usize, u64)>)
    requires
        pos <= e <= s@.len(),
        e <= usize::MAX,
    ensures
        match unit_of(s@.subrange(pos as int, e as int)) {
            Some((sl, unit)) => r matches Some((sl2, u2)) && sl2 == sl && u2 == unit,
            None => r is None,
        },
{
    let mut kw: Vec<char> = Vec::new();
    kw.push('d');
    kw.push('a');
    kw.push('y');
    kw.push('s');
    proof {
        assert(kw@ =~= seq!['d', 'a', 'y', 's']);
    }
    if ends_with_x(s, pos, e, &kw) {
        return Some((4, 1440));
    }
    kw.pop();
    proof {
        assert(kw@ =~= seq!['d', 'a', 'y']);
    }
    if ends_with_x(s, pos, e, &kw) {
        return Some((3, 1440));
    }
    kw.truncate(1);
    proof {
        assert(kw@ =~= seq!['d']);
    }
    if ends_with_x(s, pos, e, &kw) {
        return Some((1, 1440));
    }
    kw.clear();
    kw.push('h');
    kw.push('o');
    kw.push('u');
    kw.push('r');
    kw.push('s');
    proof {
        assert(kw@ =~= seq!['h', 'o', 'u', 'r', 's']);
    }
    if ends_with_x(s, pos, e, &kw) {
        return Some((5, 60));
    }
    kw.pop();
    proof {
        assert(kw@ =~= seq!['h', 'o', 'u', 'r']);
    }
    if ends_with_x(s, pos, e, &kw) {
        return Some((4, 60));
    }
    kw.truncate(1);
    proof {
        assert(kw@ =~= seq!['h']);
    }
    if ends_with_x(s, pos, e, &kw) {
        return Some((1, 60));
    }
    kw.clear();
    kw.push('m');
    kw.push('i');
    kw.push('n');
    kw.push('u');
    kw.push('t');
    kw.push('e');
    kw.push('s');
    proof {
        assert(kw@ =~= seq!['m', 'i', 'n', 'u', 't', 'e', 's']);
    }
    if ends_with_x(s, pos, e, &kw) {
        return Some((7, 1));
    }
    kw.pop();
    proof {
        assert(kw@ =~= seq!['m', 'i', 'n', 'u', 't', 'e']);
    }
    if ends_with_x(s, pos, e, &kw) {
        return Some((6, 1));
    }
    kw.truncate(3);
    proof {
        assert(kw@ =~= seq!['m', 'i', 'n']);
    }
    if ends_with_x(s, pos, e, &kw) {
        return Some((3, 1));
    }
    kw.truncate(1);
    proof {
        assert(kw@ =~= seq!['m']);
    }
    if ends_with_x(s, pos, e, &kw) {
        return Some((1, 1));
    }
    None
}

/// The minutes one token contributes, capped magnitudes enforced; `None`
/// when the token has a recognized unit but a bad magnitude.
fn token_minutes_x(s: &str, pos: usize, e: usize) -> (r: Option<u64>)
    requires
        pos < e <= s@.len(),
        e <= usize::MAX,
    ensures
        match token_minutes(s@.subrange(pos as int, e as int)) {
            None => r is None,
            Some(v) => r == Some(v as u64) && 0 <= v <= MAX_MAGNITUDE * 1440,
        },
{
    let ghost t = s@.subrange(pos as int, e as int);
    match token_unit(s, pos, e) {
        None => Some(0),
        Some((sl, unit)) => {
            proof {
                assert(unit == 1440 || unit == 60 || unit == 1);
                assert(sl == unit_of(t)->Some_0.0);
            }
            if sl >= e - pos {
                proof {
                    assert(t.subrange(0, t.len() - sl).len() == 0);
                }
                return None;
            }
            let mend = e - sl;
            let ghost mag = t.subrange(0, t.len() - sl);
            proof {
                assert(mag =~= s@.subrange(pos as int, mend as int));
            }
            let mut val: u64 = 0;
            let mut k = pos;
            while k < mend
                invariant
                    pos <= k <= mend,
                    mend <= e <= s@.len(),
                    e <= usize::MAX,
                    pos < e,
                    sl < e - pos,
                    mend == e - sl,
                    t == s@.subrange(pos as int, e as int),
                    unit_of(t) == Some((sl as int, unit as int)),
                    mag == t.subrange(0, t.len() - sl),
                    mag == s@.subrange(pos as int, mend as int),
                    all_digits(s@.subrange(pos as int, k as int)),
                    val == digits_value(s@.subrange(pos as int, k as int)),
                    val <= MAX_MAGNITUDE,
                decreases mend - k,
            {
                let c = s.get_char(k);
                let cu = c as u32;
                let ghost prefix = s@.subrange(pos as int, k as int);
                let ghost prefix2 = s@.subrange(pos as int, k as int + 1);
                proof {
                    assert(prefix2.drop_last() =~= prefix);
                    assert(prefix2.last() == s@[k as int]);
                }
                if cu < 48 || cu > 57 {
                    proof {
                        assert(!is_digit(mag[k as int - pos]));
                        assert(!all_digits(mag));
                    }
                    return None;
                }
                let d = (cu - 48) as u64;
                let nv = val * 10 + d;
                if nv > MAX_MAGNITUDE {
                    proof {
                        assert(digits_value(prefix2) == nv);
                        if all_digits(mag) {
                            crate::path::lemma_digits_value_mono(mag, k as int + 1 - pos);
                            assert(mag.subrange(0, k as int + 1 - pos) =~= prefix2);
                            assert(digits_value(mag) > MAX_MAGNITUDE);
                        }
                    }
                    return None;
                }
                val = nv;
                proof {
                    assert(all_digits(prefix2)) by {
                        assert(forall|i: int|
                            0 <= i < prefix.len() ==> prefix2[i] == #[trigger] prefix[i]);
                    }
                }
                k = k + 1;
            }
            proof {
                assert(mag =~= s@.subrange(pos as int, mend as int));
                assert(all_digits(mag));
                assert(val == digits_value(mag));
                assert(mag.len() > 0);
                assert(val * unit <= MAX_MAGNITUDE * 1440) by {
                    if unit == 1440 {
                        assert(val * 1440 <= MAX_MAGNITUDE * 1440);
                    } else if unit == 60 {
                        assert(val * 60 <= MAX_MAGNITUDE * 60);
                    } else {
                        assert(val * 1 == val);
                    }
                }
            }
            Some(val * unit)
        },
    }
}

/// The total offset in minutes from `pos` on; `None` when a token is
/// invalid or the total exceeds `MAX_OFFSET_MINUTES`.
fn offset_from_x(s: &str, pos: usize) -> (r: Option<u64>)
    requires
        pos <= s@.len(),
    ensures
        match spec_offset_from(s@, pos as int) {
            None => r is None,
            Some(m) => if m <= MAX_OFFSET_MINUTES {
                r == Some(m as u64)
            } else {
                r is None
            },
        },
    decreases s@.len() - pos,
{
    let n = s.unicode_len();
    if pos >= n {
        return Some(0);
    }
    let c = s.get_char(pos);
    if c == ' ' || c == '\t' || c == '\n' || c == '\r' {
        return offset_from_x(s, pos + 1);
    }
    proof {
        lemma_first_space_from(s@, pos as int);
    }
    let ghost ge = first_space_from(s@, pos as int);
    let mut e = pos;
    while e < n && !space_at(s, e)
        invariant
            pos <= e <= n,
            n == s@.len(),
            forall|k: int| pos <= k < e ==> !is_space(s@[k]),
            ge == first_space_from(s@, pos as int),
            e <= ge,
        decreases n - e,
    {
        proof {
            lemma_first_space_from(s@, pos as int);
            if e + 1 > ge {
                assert(!is_space(s@[ge]));
            }
        }
        e = e + 1;
    }
    proof {
        lemma_first_space_from(s@, pos as int);
        if e < ge {
            assert(is_space(s@[e as int]));
        }
        assert(e == ge);
    }
    match token_minutes_x(s, pos, e) {
        None => None,
        Some(v) => {
            proof {
                lemma_token_nonneg(s@.subrange(pos as int, e as int));
                lemma_offset_nonneg(s@, e as int);
            }
            match offset_from_x(s, e) {
                None => None,
                Some(rest) => {
                    let total = v + rest;
                    if total > MAX_OFFSET_MINUTES {
                        None
                    } else {
                        Some(total)
                    }
                },
            }
        },
    }
}

/// Parse deadline text against a given current moment. The absolute rules
/// ignore `now`; the keyword and offset rules are relative to it. Exactly
/// the texts that no grammar rule accepts are `InvalidDeadlineFormat`.
pub fn parse_deadline_at(s: &str, now: DateTime) -> (r: Result<DateTime, TodoError>)
    requires
        now.wf(),
        now.year <= 9999,
    ensures
        match spec_deadline_at(s@, now) {
            Some(dt) => r == Ok::<DateTime, TodoError>(dt) && dt.wf(),
            None => r == Err::<DateTime, TodoError>(TodoError::InvalidDeadlineFormat),
        },
{
    if let Some(dt) = parse_absolute(s) {
        return Ok(dt);
    }
    if let Some(k) = keyword_days(s) {
        let eod = DateTime { hour: 23, minute: 59, second: 59, ..now };
        proof {
            assert(eod == end_of_day(now));
            assert(eod.wf());
        }
        let dt = add_days(eod, k);
        return Ok(dt);
    }
    let n = s.unicode_len();
    if n >= 1 {
        let c0 = s.get_char(0);
        if c0 == '+' {
            proof {
                lemma_offset_nonneg(s@, 1);
            }
            return match offset_from_x(s, 1) {
                Some(m) => {
                    let dt = add_minutes(now, m);
                    Ok(dt)
                },
                None => Err(TodoError::InvalidDeadlineFormat),
            };
        }
    }
    Err(TodoError::InvalidDeadlineFormat)
}

/// Relies on chrono's `Local::now` and its `Datelike` / `Timelike`
/// accessors for the current local calendar date and clock time, read from
/// the system clock. Nothing is promised of the values: the caller
/// validates every field.
#[verifier::external_body]
fn now_fields() -> (r: (i64, u32, u32, u32, u32, u32)) {
    let n = chrono::Local::now();
    (n.year() as i64, n.month(), n.day(), n.hour(), n.minute(), n.second())
}

/// The current local moment, validated field by field; a clock reading
/// outside the supported calendar (before year 1 or after year 9999, or
/// incoherent fields) falls back to the epoch moment.
pub fn current_datetime() -> (r: DateTime)
    ensures
        r.wf(),
        r.year <= 9999,
{
    let (y, mo, d, h, mi, sec) = now_fields();
    if 1 <= y && y <= 9999 && 1 <= mo && mo <= 12 && 1 <= d && h < 24 && mi < 60 && sec < 60 {
        let yy = y as u64;
        let mou = mo as u64;
        let du = d as u64;
        if du <= crate::datetime::days_in_month_x(yy, mou) {
            return DateTime {
                year: yy,
                month: mou,
                day: du,
                hour: h as u64,
                minute: mi as u64,
                second: sec as u64,
            };
        }
    }
    DateTime { year: 1970, month: 1, day: 1, hour: 0, minute: 0, second: 0 }
}

/// Whether `r` is the outcome the grammar prescribes for `s` under `now`.
pub open spec fn outcome_for(s: Seq<char>, now: DateTime, r: Result<DateTime, TodoError>) -> bool {
    match spec_deadline_at(s, now) {
        Some(dt) => r == Ok::<DateTime, TodoError>(dt),
        None => r == Err::<DateTime, TodoError>(TodoError::InvalidDeadlineFormat),
    }
}

/// Parse optional deadline text against the current moment. Supplying no
/// text is an error at this level; the list engine treats an absent deadline
/// argument as "no deadline" without calling the parser. Absolute dates and
/// times parse the same whatever the clock says; relative forms are resolved
/// against one validated clock reading.
pub fn parse_deadline(deadline: Option<String>) -> (r: Result<DateTime, TodoError>)
    ensures
        deadline is None ==> r == Err::<DateTime, TodoError>(TodoError::InvalidDeadlineFormat),
        deadline matches Some(s) ==> {
            &&& (spec_abs_datetime(s@) matches Some(dt) ==> r == Ok::<DateTime, TodoError>(dt))
            &&& (spec_abs_datetime(s@) is None ==> (spec_abs_date(s@) matches Some(dt) ==> r
                == Ok::<DateTime, TodoError>(dt)))
            &&& exists|now: DateTime| now.wf() && now.year <= 9999 && outcome_for(s@, now, r)
            &&& (r matches Ok(dt) ==> dt.wf())
            &&& (r is Err ==> r == Err::<DateTime, TodoError>(TodoError::InvalidDeadlineFormat))
        },
{
    match deadline {
        None => Err(TodoError::InvalidDeadlineFormat),
        Some(s) => {
            let now = current_datetime();
            let r = parse_deadline_at(s.as_str(), now);
            proof {
                assert(now.wf() && now.year <= 9999 && outcome_for(s@, now, r));
            }
            r
        },
    }
}

} // verus!
