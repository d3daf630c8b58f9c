//! Calendar arithmetic and parsing of the forum's date strings.
//!
//! A post's date is either relative — `Today HH:MM AM`, `Yesterday
//! HH:MM PM`, resolved against a caller-supplied current date — or
//! absolute in the form `DD Month YYYY HH:MM AM`. Parsed date-times
//! are read as UTC and turned into seconds since the epoch with
//! proleptic-Gregorian day arithmetic.

use vstd::prelude::*;

use crate::currency::{ascii_lower, ascii_lower_exec, digits_value, pat_at};
use crate::error::WatchError;
use crate::identify::{is_digit_c, leading_digits, leading_digits_from};
use crate::text::sub_vec;

verus! {

/// A leap year of the proleptic Gregorian calendar.
pub open spec fn is_leap(y: int) -> bool {
    y % 4 == 0 && (y % 100 != 0 || y % 400 == 0)
}

/// Days in the month of the given year.
pub open spec fn days_in_month(y: int, m: int) -> int {
    if m == 2 {
        if is_leap(y) {
            29
        } else {
            28
        }
    } else if m == 4 || m == 6 || m == 9 || m == 11 {
        30
    } else {
        31
    }
}

/// Days of the year before the first of the given month.
pub open spec fn days_before_month(y: int, m: int) -> int {
    let base = if m == 1 {
        0int
    } else if m == 2 {
        31
    } else if m == 3 {
        59
    } else if m == 4 {
        90
    } else if m == 5 {
        120
    } else if m == 6 {
        151
    } else if m == 7 {
        181
    } else if m == 8 {
        212
    } else if m == 9 {
        243
    } else if m == 10 {
        273
    } else if m == 11 {
        304
    } else {
        334
    };
    if m > 2 && is_leap(y) {
        base + 1
    } else {
        base
    }
}

/// Days since 1970-01-01 of the given proleptic-Gregorian date.
pub open spec fn days_from_civil(y: int, m: int, d: int) -> int {
    let y1 = y - 1;
    365 * y1 + y1 / 4 - y1 / 100 + y1 / 400 + days_before_month(y, m) + (d - 1) - 719162
}

/// Seconds since the epoch of the given UTC date and time.
pub open spec fn timestamp_of(y: int, m: int, d: int, h: int, mi: int) -> int {
    days_from_civil(y, m, d) * 86400 + h * 3600 + mi * 60
}

/// A plain calendar date.
#[derive(Clone, Copy, Debug, PartialEq, Eq, Structural)]
pub struct CivilDate {
    pub year: i64,
    pub month: u8,
    pub day: u8,
}

/// A well-formed date of the calendar range this library supports.
pub open spec fn date_wf(d: CivilDate) -> bool {
    2 <= d.year <= 262142 && 1 <= d.month <= 12 && 1 <= d.day <= days_in_month(
        d.year as int,
        d.month as int,
    )
}

/// The day before the given date.
pub open spec fn prev_day(d: CivilDate) -> CivilDate {
    if d.day > 1 {
        CivilDate { year: d.year, month: d.month, day: (d.day - 1) as u8 }
    } else if d.month > 1 {
        CivilDate {
            year: d.year,
            month: (d.month - 1) as u8,
            day: days_in_month(d.year as int, d.month - 1) as u8,
        }
    } else {
        CivilDate { year: (d.year - 1) as i64, month: 12, day: 31 }
    }
}

/// Days in the month, executably.
fn days_in_month_exec(y: i64, m: u8) -> (r: u8)
    requires
        1 <= m <= 12,
    ensures
        r as int == days_in_month(y as int, m as int),
{
    if m == 2 {
        if y % 4 == 0 && (y % 100 != 0 || y % 400 == 0) {
            29
        } else {
            28
        }
    } else if m == 4 || m == 6 || m == 9 || m == 11 {
        30
    } else {
        31
    }
}

/// Days since 1970-01-01, executably.
fn days_from_civil_exec(y: i64, m: u8, d: u8) -> (r: i64)
    requires
        1 <= y <= 262142,
        1 <= m <= 12,
        1 <= d <= 31,
    ensures
        r as int == days_from_civil(y as int, m as int, d as int),
{
    let y1: i64 = y - 1;
    let base: i64 = if m == 1 {
        0
    } else if m == 2 {
        31
    } else if m == 3 {
        59
    } else if m == 4 {
        90
    } else if m == 5 {
        120
    } else if m == 6 {
        151
    } else if m == 7 {
        181
    } else if m == 8 {
        212
    } else if m == 9 {
        243
    } else if m == 10 {
        273
    } else if m == 11 {
        304
    } else {
        334
    };
    let leap_add: i64 = if m > 2 && (y % 4 == 0 && (y % 100 != 0 || y % 400 == 0)) {
        1
    } else {
        0
    };
    365 * y1 + y1 / 4 - y1 / 100 + y1 / 400 + base + leap_add + (d as i64 - 1) - 719162
}

/// Seconds since the epoch, executably.
fn timestamp_of_exec(y: i64, m: u8, d: u8, h: u32, mi: u32) -> (r: i64)
    requires
        1 <= y <= 262142,
        1 <= m <= 12,
        1 <= d <= 31,
        h <= 23,
        mi <= 59,
    ensures
        r as int == timestamp_of(y as int, m as int, d as int, h as int, mi as int),
{
    let days: i64 = days_from_civil_exec(y, m, d);
    days * 86400 + (h as i64) * 3600 + (mi as i64) * 60
}

/// The day before, executably.
pub fn prev_day_exec(d: CivilDate) -> (r: CivilDate)
    requires
        date_wf(d),
    ensures
        r == prev_day(d),
        1 <= r.year <= 262142,
        1 <= r.month <= 12,
        1 <= r.day <= days_in_month(r.year as int, r.month as int),
{
    if d.day > 1 {
        CivilDate { year: d.year, month: d.month, day: d.day - 1 }
    } else if d.month > 1 {
        CivilDate { year: d.year, month: d.month - 1, day: days_in_month_exec(d.year, d.month - 1) }
    } else {
        CivilDate { year: d.year - 1, month: 12, day: 31 }
    }
}

/// A space character.
pub open spec fn is_sp(c: char) -> bool {
    c == ' '
}

/// Length of the maximal space prefix.
pub open spec fn leading_sp(t: Seq<char>) -> nat
    decreases t.len(),
{
    if t.len() == 0 || !is_sp(t[0]) {
        0
    } else {
        1 + leading_sp(t.drop_first())
    }
}

/// An ASCII letter.
pub open spec fn is_alpha_c(c: char) -> bool {
    ('a' <= c && c <= 'z') || ('A' <= c && c <= 'Z')
}

/// Length of the maximal letter prefix.
pub open spec fn leading_alpha(t: Seq<char>) -> nat
    decreases t.len(),
{
    if t.len() == 0 || !is_alpha_c(t[0]) {
        0
    } else {
        1 + leading_alpha(t.drop_first())
    }
}

/// Length of the space run of `s` starting at `from`.
fn sp_from(s: &Vec<char>, from: usize) -> (r: usize)
    requires
        from <= s@.len(),
    ensures
        r == leading_sp(s@.subrange(from as int, s@.len() as int)),
        from + r <= s@.len(),
{
    let n: usize = s.len();
    let mut i: usize = from;
    while i < n && sp_at(s, i)
        invariant
            n == s@.len(),
            from <= i <= n,
            leading_sp(s@.subrange(from as int, n as int)) == (i - from) + leading_sp(
                s@.subrange(i as int, n as int),
            ),
        decreases n - i,
    {
        proof {
            let u = s@.subrange(i as int, n as int);
            assert(u[0] == s@[i as int]);
            assert(u.drop_first() =~= s@.subrange(i + 1, n as int));
        }
        i = i + 1;
    }
    proof {
        let u = s@.subrange(i as int, n as int);
        if i < n {
            assert(u[0] == s@[i as int]);
        }
        assert(leading_sp(u) == 0);
    }
    i - from
}

/// Length of the letter run of `s` starting at `from`.
fn alpha_from(s: &Vec<char>, from: usize) -> (r: usize)
    requires
        from <= s@.len(),
    ensures
        r == leading_alpha(s@.subrange(from as int, s@.len() as int)),
        from + r <= s@.len(),
{
    let n: usize = s.len();
    let mut i: usize = from;
    while i < n && alpha_at(s, i)
        invariant
            n == s@.len(),
            from <= i <= n,
            leading_alpha(s@.subrange(from as int, n as int)) == (i - from) + leading_alpha(
                s@.subrange(i as int, n as int),
            ),
        decreases n - i,
    {
        proof {
            let u = s@.subrange(i as int, n as int);
            assert(u[0] == s@[i as int]);
            assert(u.drop_first() =~= s@.subrange(i + 1, n as int));
        }
        i = i + 1;
    }
    proof {
        let u = s@.subrange(i as int, n as int);
        if i < n {
            assert(u[0] == s@[i as int]);
        }
        assert(leading_alpha(u) == 0);
    }
    i - from
}

/// Whether the character at `j` is a space.
fn sp_at(s: &Vec<char>, j: usize) -> (r: bool)
    requires
        j < s@.len(),
    ensures
        r == is_sp(s@[j as int]),
{
    s[j] == ' '
}

/// Whether the character at `j` is a letter.
fn alpha_at(s: &Vec<char>, j: usize) -> (r: bool)
    requires
        j < s@.len(),
    ensures
        r == is_alpha_c(s@[j as int]),
{
    let c: char = s[j];
    ('a' <= c && c <= 'z') || ('A' <= c && c <= 'Z')
}

/// The month number of a lowercased full English month name.
pub open spec fn month_from_name(s: Seq<char>) -> Option<int> {
    if s == "january"@ {
        Some(1int)
    } else if s == "february"@ {
        Some(2int)
    } else if s == "march"@ {
        Some(3int)
    } else if s == "april"@ {
        Some(4int)
    } else if s == "may"@ {
        Some(5int)
    } else if s == "june"@ {
        Some(6int)
    } else if s == "july"@ {
        Some(7int)
    } else if s == "august"@ {
        Some(8int)
    } else if s == "september"@ {
        Some(9int)
    } else if s == "october"@ {
        Some(10int)
    } else if s == "november"@ {
        Some(11int)
    } else {
        if s == "december"@ {
            Some(12int)
        } else {
            None
        }
    }
}

/// Compares a character vector with a string literal's characters.
fn eq_lit(v: &Vec<char>, lit: &str) -> (r: bool)
    ensures
        r == (v@ == lit@),
{
    let lv: Vec<char> = crate::text::str_to_chars(lit);
    crate::text::eq_chars(v, &lv)
}

/// The month number of a lowercased name, executably.
fn month_from_name_exec(v: &Vec<char>) -> (r: Option<u8>)
    ensures
        match r {
            Some(m) => month_from_name(v@) == Some(m as int) && 1 <= m <= 12,
            None => month_from_name(v@) is None,
        },
{
    if eq_lit(v, "january") {
        Some(1)
    } else if eq_lit(v, "february") {
        Some(2)
    } else if eq_lit(v, "march") {
        Some(3)
    } else if eq_lit(v, "april") {
        Some(4)
    } else if eq_lit(v, "may") {
        Some(5)
    } else if eq_lit(v, "june") {
        Some(6)
    } else if eq_lit(v, "july") {
        Some(7)
    } else if eq_lit(v, "august") {
        Some(8)
    } else if eq_lit(v, "september") {
        Some(9)
    } else if eq_lit(v, "october") {
        Some(10)
    } else if eq_lit(v, "november") {
        Some(11)
    } else if eq_lit(v, "december") {
        Some(12)
    } else {
        None
    }
}

/// Whether a meridian letter opens `am` (false) or `pm` (true).
pub open spec fn meridian(c: char) -> Option<bool> {
    if c == 'a' || c == 'A' {
        Some(false)
    } else if c == 'p' || c == 'P' {
        Some(true)
    } else {
        None
    }
}

/// The second meridian letter.
pub open spec fn is_m_char(c: char) -> bool {
    c == 'm' || c == 'M'
}

/// Hour (24-hour clock) and minute of `HH:MM AM`-shaped text: one or
/// two hour digits between one and twelve, a colon, one or two minute
/// digits up to fifty-nine, optional spaces, a meridian, and nothing
/// but spaces after it.
pub open spec fn parse_time(t: Seq<char>) -> Option<(int, int)> {
    let hd = leading_digits(t);
    if !(1 <= hd <= 2) {
        None
    } else if hd >= t.len() || t[hd as int] != ':' {
        None
    } else {
        let h = digits_value(t.subrange(0, hd as int));
        let r1 = t.subrange((hd + 1) as int, t.len() as int);
        let md = leading_digits(r1);
        if !(1 <= md <= 2) {
            None
        } else {
            let mi = digits_value(r1.subrange(0, md as int));
            let r2 = r1.subrange(md as int, r1.len() as int);
            let sp = leading_sp(r2);
            let ap = r2.subrange(sp as int, r2.len() as int);
            if ap.len() < 2 {
                None
            } else if meridian(ap[0]) is None || !is_m_char(ap[1]) {
                None
            } else if leading_sp(ap.subrange(2, ap.len() as int)) != ap.len() - 2 {
                None
            } else if h < 1 || h > 12 || mi > 59 {
                None
            } else {
                let pm = meridian(ap[0]).unwrap();
                let h24 = if pm {
                    if h == 12 {
                        12int
                    } else {
                        h + 12
                    }
                } else {
                    if h == 12 {
                        0int
                    } else {
                        h
                    }
                };
                Some((h24, mi))
            }
        }
    }
}

/// Every character of a leading digit run is a digit.
pub proof fn lemma_leading_digits_digits(t: Seq<char>)
    ensures
        forall|k: int| 0 <= k < leading_digits(t) && k < t.len() ==> is_digit_c(#[trigger] t[k]),
    decreases t.len(),
{
    if t.len() > 0 && is_digit_c(t[0]) {
        lemma_leading_digits_digits(t.drop_first());
        assert forall|k: int|
            0 <= k < leading_digits(t) && k < t.len() implies is_digit_c(#[trigger] t[k]) by {
            if k > 0 {
                assert(t.drop_first()[k - 1] == t[k]);
                assert(is_digit_c(t.drop_first()[k - 1]));
            }
        }
    }
}

/// Value of a short all-digit run of `s`.
fn digits_run_value(s: &Vec<char>, start: usize, len: usize) -> (r: u32)
    requires
        start + len <= s@.len(),
        len <= 4,
        forall|k: int| start <= k < start + len ==> is_digit_c(#[trigger] s@[k]),
    ensures
        r as int == digits_value(s@.subrange(start as int, (start + len) as int)),
        r <= 9999,
{
    proof {
        assert(s@.subrange(start as int, start as int) =~= Seq::<char>::empty());
    }
    let mut r: u32 = 0;
    let mut i: usize = 0;
    while i < len
        invariant
            start + len <= s@.len(),
            s@.len() == s.len(),
            len <= 4,
            forall|k: int| start <= k < start + len ==> is_digit_c(#[trigger] s@[k]),
            i <= len,
            r as int == digits_value(s@.subrange(start as int, (start + i) as int)),
            (r as int) < (if i == 0 {
                1int
            } else if i == 1 {
                10int
            } else if i == 2 {
                100int
            } else if i == 3 {
                1000int
            } else {
                10000int
            }),
        decreases len - i,
    {
        let c: char = s[start + i];
        let d: u32 = (c as u8 - 48) as u32;
        proof {
            let u = s@.subrange(start as int, start + i + 1);
            assert(u.drop_last() =~= s@.subrange(start as int, (start + i) as int));
            assert(u.last() == s@[start + i]);
        }
        r = r * 10 + d;
        i = i + 1;
    }
    r
}

/// Parses `HH:MM AM`-shaped text beginning at `from`, exactly as
/// `parse_time` describes.
#[verifier::rlimit(100)]
fn parse_time_exec(s: &Vec<char>, from: usize) -> (r: Option<(u32, u32)>)
    requires
        from <= s@.len(),
    ensures
        match r {
            Some((h, mi)) => parse_time(s@.subrange(from as int, s@.len() as int)) == Some(
                (h as int, mi as int),
            ) && h <= 23 && mi <= 59,
            None => parse_time(s@.subrange(from as int, s@.len() as int)) is None,
        },
{
    let n: usize = s.len();
    let ghost t = s@.subrange(from as int, n as int);
    let hd: usize = leading_digits_from(s, from);
    if !(1 <= hd && hd <= 2) {
        return None;
    }
    if from + hd >= n {
        return None;
    }
    proof {
        assert(t[hd as int] == s@[(from + hd) as int]);
    }
    if s[from + hd] != ':' {
        return None;
    }
    proof {
        lemma_leading_digits_digits(t);
        assert forall|k: int| from <= k < from + hd implies is_digit_c(#[trigger] s@[k]) by {
            assert(t[k - from] == s@[k]);
            assert(is_digit_c(t[k - from]));
        }
        assert(t.subrange(0, hd as int) =~= s@.subrange(from as int, (from + hd) as int));
    }
    let h: u32 = digits_run_value(s, from, hd);
    let m0: usize = from + hd + 1;
    let ghost r1 = t.subrange(hd + 1, t.len() as int);
    proof {
        assert(r1 =~= s@.subrange(m0 as int, n as int));
    }
    let md: usize = leading_digits_from(s, m0);
    if !(1 <= md && md <= 2) {
        return None;
    }
    proof {
        lemma_leading_digits_digits(r1);
        assert forall|k: int| m0 <= k < m0 + md implies is_digit_c(#[trigger] s@[k]) by {
            assert(r1[k - m0] == s@[k]);
            assert(is_digit_c(r1[k - m0]));
        }
        assert(r1.subrange(0, md as int) =~= s@.subrange(m0 as int, (m0 + md) as int));
    }
    let mi: u32 = digits_run_value(s, m0, md);
    let ghost r2 = r1.subrange(md as int, r1.len() as int);
    proof {
        assert(r2 =~= s@.subrange((m0 + md) as int, n as int));
    }
    let sp: usize = sp_from(s, m0 + md);
    let ap0: usize = m0 + md + sp;
    let ghost ap = r2.subrange(sp as int, r2.len() as int);
    proof {
        assert(ap =~= s@.subrange(ap0 as int, n as int));
    }
    if n - ap0 < 2 {
        return None;
    }
    let c0: char = s[ap0];
    let c1: char = s[ap0 + 1];
    proof {
        assert(ap[0] == s@[ap0 as int]);
        assert(ap[1] == s@[ap0 + 1]);
    }
    let pm: bool = if c0 == 'a' || c0 == 'A' {
        false
    } else if c0 == 'p' || c0 == 'P' {
        true
    } else {
        return None;
    };
    if !(c1 == 'm' || c1 == 'M') {
        return None;
    }
    let tail: usize = sp_from(s, ap0 + 2);
    proof {
        assert(ap.subrange(2, ap.len() as int) =~= s@.subrange(ap0 + 2, n as int));
    }
    if ap0 + 2 + tail != n {
        return None;
    }
    if h < 1 || h > 12 || mi > 59 {
        return None;
    }
    let h24: u32 = if pm {
        if h == 12 {
            12
        } else {
            h + 12
        }
    } else {
        if h == 12 {
            0
        } else {
            h
        }
    };
    Some((h24, mi))
}

/// The timestamp of absolute text `DD Month YYYY HH:MM AM`: day, full
/// English month name (any letter case), year of at most four digits,
/// then the time; the date must be a real calendar date of year one or
/// later.
pub open spec fn parse_date_time(s: Seq<char>) -> Option<int> {
    let dd = leading_digits(s);
    if !(1 <= dd <= 2) {
        None
    } else {
        let day = digits_value(s.subrange(0, dd as int));
        let r1 = s.subrange(dd as int, s.len() as int);
        let sp1 = leading_sp(r1);
        if sp1 == 0 {
            None
        } else {
            let r2 = r1.subrange(sp1 as int, r1.len() as int);
            let al = leading_alpha(r2);
            if al == 0 {
                None
            } else {
                match month_from_name(ascii_lower(r2.subrange(0, al as int))) {
                    None => None,
                    Some(month) => {
                        let r3 = r2.subrange(al as int, r2.len() as int);
                        let sp2 = leading_sp(r3);
                        if sp2 == 0 {
                            None
                        } else {
                            let r4 = r3.subrange(sp2 as int, r3.len() as int);
                            let yd = leading_digits(r4);
                            if !(1 <= yd <= 4) {
                                None
                            } else {
                                let y = digits_value(r4.subrange(0, yd as int));
                                let r5 = r4.subrange(yd as int, r4.len() as int);
                                let sp3 = leading_sp(r5);
                                if sp3 == 0 {
                                    None
                                } else {
                                    match parse_time(r5.subrange(sp3 as int, r5.len() as int)) {
                                        None => None,
                                        Some((h, mi)) => {
                                            if y < 1 || day < 1 || day > days_in_month(y, month) {
                                                None
                                            } else {
                                                Some(timestamp_of(y, month, day, h, mi))
                                            }
                                        },
                                    }
                                }
                            }
                        }
                    },
                }
            }
        }
    }
}

/// Parses the absolute date format, exactly as `parse_date_time` says.
#[verifier::rlimit(100)]
#[verifier::spinoff_prover]
fn parse_date_time_exec(s: &Vec<char>) -> (r: Option<i64>)
    ensures
        match r {
            Some(ts) => parse_date_time(s@) == Some(ts as int),
            None => parse_date_time(s@) is None,
        },
{
    let n: usize = s.len();
    proof {
        assert(s@.subrange(0, n as int) =~= s@);
    }
    let dd: usize = leading_digits_from(s, 0);
    if !(1 <= dd && dd <= 2) {
        return None;
    }
    proof {
        lemma_leading_digits_digits(s@);
        assert(forall|k: int| 0 <= k < dd ==> is_digit_c(#[trigger] s@[k]));
        assert(s@.subrange(0, dd as int) =~= s@.subrange(0 as int, (0 + dd) as int));
    }
    let day: u32 = digits_run_value(s, 0, dd);
    let ghost r1 = s@.subrange(dd as int, n as int);
    let sp1: usize = sp_from(s, dd);
    if sp1 == 0 {
        return None;
    }
    let a0: usize = dd + sp1;
    let ghost r2 = r1.subrange(sp1 as int, r1.len() as int);
    proof {
        assert(r2 =~= s@.subrange(a0 as int, n as int));
    }
    let al: usize = alpha_from(s, a0);
    if al == 0 {
        return None;
    }
    let name_raw: Vec<char> = sub_vec(s, a0, a0 + al);
    let name_low: Vec<char> = ascii_lower_exec(&name_raw);
    proof {
        assert(r2.subrange(0, al as int) =~= s@.subrange(a0 as int, (a0 + al) as int));
        assert(name_low@ == ascii_lower(r2.subrange(0, al as int)));
    }
    let month: u8 = match month_from_name_exec(&name_low) {
        Some(m) => m,
        None => {
            return None;
        },
    };
    let y0: usize = a0 + al;
    let ghost r3 = r2.subrange(al as int, r2.len() as int);
    proof {
        assert(r3 =~= s@.subrange(y0 as int, n as int));
    }
    let sp2: usize = sp_from(s, y0);
    if sp2 == 0 {
        return None;
    }
    let y1: usize = y0 + sp2;
    let ghost r4 = r3.subrange(sp2 as int, r3.len() as int);
    proof {
        assert(r4 =~= s@.subrange(y1 as int, n as int));
    }
    let yd: usize = leading_digits_from(s, y1);
    if !(1 <= yd && yd <= 4) {
        return None;
    }
    proof {
        lemma_leading_digits_digits(r4);
        assert forall|k: int| y1 <= k < y1 + yd implies is_digit_c(#[trigger] s@[k]) by {
            assert(r4[k - y1] == s@[k]);
            assert(is_digit_c(r4[k - y1]));
        }
        assert(r4.subrange(0, yd as int) =~= s@.subrange(y1 as int, (y1 + yd) as int));
    }
    let y: u32 = digits_run_value(s, y1, yd);
    let t0: usize = y1 + yd;
    let ghost r5 = r4.subrange(yd as int, r4.len() as int);
    proof {
        assert(r5 =~= s@.subrange(t0 as int, n as int));
    }
    let sp3: usize = sp_from(s, t0);
    if sp3 == 0 {
        return None;
    }
    proof {
        assert(r5.subrange(sp3 as int, r5.len() as int) =~= s@.subrange(
            (t0 + sp3) as int,
            n as int,
        ));
    }
    let (h, mi): (u32, u32) = match parse_time_exec(s, t0 + sp3) {
        Some(pair) => pair,
        None => {
            return None;
        },
    };
    if y < 1 || day < 1 || day > days_in_month_exec(y as i64, month) as u32 {
        return None;
    }
    let ts: i64 = timestamp_of_exec(y as i64, month, day as u8, h, mi);
    Some(ts)
}

/// The timestamp of a post's date string, resolved against `today`:
/// `Today HH:MM AM`, `Yesterday HH:MM AM`, or the absolute
/// `DD Month YYYY HH:MM AM` form.
pub open spec fn date_to_ts_spec(s: Seq<char>, today: CivilDate) -> Option<int> {
    if pat_at(s, 0, seq!['T', 'o', 'd', 'a', 'y']) {
        if s.len() < 6 {
            None
        } else {
            match parse_time(s.subrange(6, s.len() as int)) {
                Some((h, mi)) => Some(
                    timestamp_of(today.year as int, today.month as int, today.day as int, h, mi),
                ),
                None => None,
            }
        }
    } else if pat_at(s, 0, seq!['Y', 'e', 's', 't', 'e', 'r', 'd', 'a', 'y']) {
        if s.len() < 10 {
            None
        } else {
            let yd = prev_day(today);
            match parse_time(s.subrange(10, s.len() as int)) {
                Some((h, mi)) => Some(
                    timestamp_of(yd.year as int, yd.month as int, yd.day as int, h, mi),
                ),
                None => None,
            }
        }
    } else {
        parse_date_time(s)
    }
}

/// Whether the given pattern opens the text.
fn starts_with_pat(s: &Vec<char>, pat: &Vec<char>) -> (r: bool)
    ensures
        r == pat_at(s@, 0, pat@),
{
    if pat.len() > s.len() {
        return false;
    }
    let r: bool = crate::text::check_match_at(s, pat, 0);
    proof {
        assert(crate::text::matches_at(s@, pat@, 0) == pat_at(s@, 0, pat@));
    }
    r
}

/// Turns a post's date string into seconds since the epoch, resolving
/// `Today` and `Yesterday` against the supplied current date, exactly
/// as `date_to_ts_spec` describes. Fails with `WatchError::ParseTime`
/// when the text fits none of the three forms, including a relative
/// marker with nothing after it.
pub fn date_to_timestamp(date_input: &str, today: CivilDate) -> (r: Result<i64, WatchError>)
    requires
        date_wf(today),
    ensures
        match r {
            Ok(ts) => date_to_ts_spec(date_input@, today) == Some(ts as int),
            Err(e) => e == WatchError::ParseTime && date_to_ts_spec(date_input@, today) is None,
        },
{
    let cs: Vec<char> = crate::text::str_to_chars(date_input);
    let today_pat: Vec<char> = vec!['T', 'o', 'd', 'a', 'y'];
    let yesterday_pat: Vec<char> = vec!['Y', 'e', 's', 't', 'e', 'r', 'd', 'a', 'y'];
    proof {
        assert(today_pat@ =~= seq!['T', 'o', 'd', 'a', 'y']);
        assert(yesterday_pat@ =~= seq!['Y', 'e', 's', 't', 'e', 'r', 'd', 'a', 'y']);
    }
    if starts_with_pat(&cs, &today_pat) {
        if cs.len() < 6 {
            return Err(WatchError::ParseTime);
        }
        match parse_time_exec(&cs, 6) {
            Some((h, mi)) => Ok(timestamp_of_exec(today.year, today.month, today.day, h, mi)),
            None => Err(WatchError::ParseTime),
        }
    } else if starts_with_pat(&cs, &yesterday_pat) {
        if cs.len() < 10 {
            return Err(WatchError::ParseTime);
        }
        let yd: CivilDate = prev_day_exec(today);
        match parse_time_exec(&cs, 10) {
            Some((h, mi)) => Ok(timestamp_of_exec(yd.year, yd.month, yd.day, h, mi)),
            None => Err(WatchError::ParseTime),
        }
    } else {
        match parse_date_time_exec(&cs) {
            Some(ts) => Ok(ts),
            None => Err(WatchError::ParseTime),
        }
    }
}

/// Relies on chrono's `Local::now` and `NaiveDate`: the current local
/// calendar date. chrono documents that its dates are valid
/// proleptic-Gregorian dates within the year range ±262143.
#[verifier::external_body]
pub fn local_today() -> (r: CivilDate)
    ensures
        -262143 <= r.year <= 262142,
        1 <= r.month <= 12,
        1 <= r.day <= days_in_month(r.year as int, r.month as int),
{
    let now = chrono::Local::now().date_naive();
    CivilDate {
        year: chrono::Datelike::year(&now) as i64,
        month: chrono::Datelike::month(&now) as u8,
        day: chrono::Datelike::day(&now) as u8,
    }
}

/// The timestamp of the first day of the month `i` months after the
/// rate epoch, the start of the year two thousand.
pub fn month_index_to_timestamp(i: u32) -> (r: i64)
    requires
        i <= 3_000_000,
    ensures
        r as int == timestamp_of(2000 + i as int / 12, 1 + i as int % 12, 1, 0, 0),
{
    let y: i64 = 2000 + (i / 12) as i64;
    let m: u8 = (1 + i % 12) as u8;
    timestamp_of_exec(y, m, 1, 0, 0)
}

/// Stamps a currency's monthly rate list with its month timestamps:
/// entry `k` of the list belongs to the month `k` months after the
/// rate epoch.
pub fn rates_with_timestamps(values: &Vec<u64>) -> (r: Vec<crate::currency::RatePoint>)
    requires
        values@.len() <= 3_000_000,
    ensures
        r@.len() == values@.len(),
        forall|k: int|
            0 <= k < r@.len() ==> (#[trigger] r@[k]).timestamp == timestamp_of(
                2000 + k / 12,
                1 + k % 12,
                1,
                0,
                0,
            ) && r@[k].rate_micro == values@[k],
{
    let mut r: Vec<crate::currency::RatePoint> = Vec::new();
    let mut k: usize = 0;
    while k < values.len()
        invariant
            values@.len() <= 3_000_000,
            k <= values@.len(),
            r@.len() == k,
            forall|j: int|
                0 <= j < k ==> (#[trigger] r@[j]).timestamp == timestamp_of(
                    2000 + j / 12,
                    1 + j % 12,
                    1,
                    0,
                    0,
                ) && r@[j].rate_micro == values@[j],
        decreases values@.len() - k,
    {
        let ts: i64 = month_index_to_timestamp(k as u32);
        r.push(crate::currency::RatePoint { timestamp: ts, rate_micro: values[k] });
        k = k + 1;
    }
    r
}

} // verus!
