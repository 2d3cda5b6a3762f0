//! The layouts of the date and time texts that chrono writes for the local
//! clock: `%Y-%m-%d` dates and RFC 3339 date-times.

use vstd::prelude::*;

use crate::text::last_index_of;

verus! {

/// `c` is one of `0` to `9`.
pub open spec fn is_decimal_digit(c: char) -> bool {
    '0' <= c <= '9'
}

/// Every character of `s` is a decimal digit.
pub open spec fn all_digits(s: Seq<char>) -> bool {
    forall|i: int| 0 <= i < s.len() ==> is_decimal_digit(#[trigger] s[i])
}

/// `s` is two decimal digits whose value lies in `lo..=hi`.
pub open spec fn is_two_digits_in(s: Seq<char>, lo: int, hi: int) -> bool {
    &&& s.len() == 2
    &&& all_digits(s)
    &&& lo <= (s[0] as int - '0' as int) * 10 + (s[1] as int - '0' as int) <= hi
}

/// A year as chrono writes it: four digits for the years 0 to 9999, and
/// otherwise a sign followed by at least four digits.
pub open spec fn is_year_text(y: Seq<char>) -> bool {
    ||| y.len() == 4 && all_digits(y)
    ||| y.len() >= 5 && (y[0] == '+' || y[0] == '-') && all_digits(y.subrange(1, y.len() as int))
}

/// A date in the layout `%Y-%m-%d`: a year, `-`, a month `01` to `12`, `-`,
/// a day `01` to `31`.
pub open spec fn is_date_stamp(d: Seq<char>) -> bool {
    let n = d.len() as int;
    &&& n >= 10
    &&& is_year_text(d.subrange(0, n - 6))
    &&& d[n - 6] == '-'
    &&& is_two_digits_in(d.subrange(n - 5, n - 3), 1, 12)
    &&& d[n - 3] == '-'
    &&& is_two_digits_in(d.subrange(n - 2, n), 1, 31)
}

/// A time of day `HH:MM:SS` with hours `00` to `23`, minutes `00` to `59`
/// and seconds `00` to `60` (a leap second shows as `60`).
pub open spec fn is_time_text(t: Seq<char>) -> bool {
    &&& t.len() == 8
    &&& is_two_digits_in(t.subrange(0, 2), 0, 23)
    &&& t[2] == ':'
    &&& is_two_digits_in(t.subrange(3, 5), 0, 59)
    &&& t[5] == ':'
    &&& is_two_digits_in(t.subrange(6, 8), 0, 60)
}

/// The fraction of a second: nothing, or `.` and three, six or nine digits.
pub open spec fn is_fraction_text(f: Seq<char>) -> bool {
    ||| f.len() == 0
    ||| (f.len() == 4 || f.len() == 7 || f.len() == 10) && f[0] == '.' && all_digits(
        f.subrange(1, f.len() as int),
    )
}

/// An offset from UTC `±HH:MM` with minutes `00` to `59`.
pub open spec fn is_offset_text(o: Seq<char>) -> bool {
    &&& o.len() == 6
    &&& o[0] == '+' || o[0] == '-'
    &&& all_digits(o.subrange(1, 3))
    &&& o[3] == ':'
    &&& is_two_digits_in(o.subrange(4, 6), 0, 59)
}

/// An RFC 3339 date-time as chrono's `to_rfc3339` writes it: a date stamp,
/// `T`, a time of day, an optional fraction of a second and an offset.
pub open spec fn is_timestamp(ts: Seq<char>) -> bool {
    match last_index_of(ts, 'T') {
        None => false,
        Some(t) => {
            let n = ts.len() as int;
            &&& t + 15 <= n
            &&& is_date_stamp(ts.subrange(0, t))
            &&& is_time_text(ts.subrange(t + 1, t + 9))
            &&& is_fraction_text(ts.subrange(t + 9, n - 6))
            &&& is_offset_text(ts.subrange(n - 6, n))
        },
    }
}

/// A character that a date stamp can hold: a digit, `-` or `+`.
pub open spec fn is_date_char(c: char) -> bool {
    is_decimal_digit(c) || c == '-' || c == '+'
}

/// A character that a timestamp can hold: a digit or one of `+ - : T .`.
pub open spec fn is_timestamp_char(c: char) -> bool {
    is_decimal_digit(c) || c == '+' || c == '-' || c == ':' || c == 'T' || c == '.'
}

/// A date stamp is made of digits, `-` and `+`.
pub proof fn lemma_date_stamp_chars(d: Seq<char>)
    requires
        is_date_stamp(d),
    ensures
        forall|i: int| 0 <= i < d.len() ==> is_date_char(#[trigger] d[i]),
{
    let n = d.len() as int;
    let y = d.subrange(0, n - 6);
    let m = d.subrange(n - 5, n - 3);
    let dd = d.subrange(n - 2, n);
    assert forall|i: int| 0 <= i < d.len() implies is_date_char(#[trigger] d[i]) by {
        if i < n - 6 {
            assert(y[i] == d[i]);
            if !(y.len() == 4 && all_digits(y)) && i > 0 {
                assert(y.subrange(1, y.len() as int)[i - 1] == d[i]);
            }
        } else if n - 5 <= i < n - 3 {
            assert(m[i - (n - 5)] == d[i]);
        } else if n - 2 <= i {
            assert(dd[i - (n - 2)] == d[i]);
        }
    }
}

/// A timestamp is made of digits and `+ - : T .`; in particular it holds
/// no space and no bracket.
pub proof fn lemma_timestamp_chars(ts: Seq<char>)
    requires
        is_timestamp(ts),
    ensures
        ts.len() > 0,
        forall|i: int| 0 <= i < ts.len() ==> is_timestamp_char(#[trigger] ts[i]),
{
    crate::text::lemma_last_index_of(ts, 'T');
    let t = last_index_of(ts, 'T')->0;
    let n = ts.len() as int;
    assert(0 <= t && t + 15 <= n);
    let date = ts.subrange(0, t);
    let time = ts.subrange(t + 1, t + 9);
    let frac = ts.subrange(t + 9, n - 6);
    let off = ts.subrange(n - 6, n);
    lemma_date_stamp_chars(date);
    assert forall|i: int| 0 <= i < ts.len() implies is_timestamp_char(#[trigger] ts[i]) by {
        if i < t {
            assert(date[i] == ts[i]);
            assert(is_date_char(date[i]));
        } else if i == t {
        } else if i < t + 9 {
            let k = i - (t + 1);
            assert(time[k] == ts[i]);
            if k < 2 {
                assert(time.subrange(0, 2)[k] == ts[i]);
            } else if 3 <= k < 5 {
                assert(time.subrange(3, 5)[k - 3] == ts[i]);
            } else if 6 <= k {
                assert(time.subrange(6, 8)[k - 6] == ts[i]);
            }
        } else if i < n - 6 {
            let k = i - (t + 9);
            assert(frac[k] == ts[i]);
            if k > 0 {
                assert(frac.subrange(1, frac.len() as int)[k - 1] == ts[i]);
            }
        } else {
            let k = i - (n - 6);
            assert(off[k] == ts[i]);
            if 1 <= k < 3 {
                assert(off.subrange(1, 3)[k - 1] == ts[i]);
            } else if 4 <= k {
                assert(off.subrange(4, 6)[k - 4] == ts[i]);
            }
        }
    }
}

} // verus!
