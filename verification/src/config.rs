//! The configuration of the archiver and the parsing of its numeric
//! settings: the list of week days and the hour and minute of the run.

use vstd::prelude::*;

use crate::text::{chars_of, join_with};

verus! {

/// When the backup runs. Each field holds the text found in the
/// configuration file.
#[derive(Debug)]
pub struct DurationConfig {
    pub day_week: String,
    pub month: String,
    pub day: String,
    pub hour: String,
    pub minute: String,
}

/// The remote server whose folder is mounted to receive the backups.
#[derive(Debug)]
pub struct ServerConfig {
    pub server_ip: String,
    pub username: String,
    pub password: String,
    pub remote_dir: String,
    pub local_dir: String,
}

/// The whole configuration of the archiver.
#[derive(Debug)]
pub struct Config {
    pub path: String,
    pub target_folder: String,
    pub excluded_directories: Vec<String>,
    pub log_path: String,
    pub duration: DurationConfig,
    pub server: ServerConfig,
}

/// The configuration file written when none exists: an example to edit.
pub const EXAMPLE_CONFIG: &'static str = r#"
# Example main config
path: /var/www
target_folder: /mnt/backups/
duration:
  day_week: 1
  month: 1
  day: "*"
  hour: 12
  minute: 00
excluded_directories:
  - /var/www/r_archiver/target
  - /var/www/rustlings
  - /var/www/for_study/.git/

server:
  server_ip: "172.16.2.01"
  username: "user"
  password: "password"
  remote_dir: "/backup/dir_for_backup"
  local_dir: "/mnt/backups"

log_path: "./status.log"
"#;

/// Why a text is not a number of the wanted type, with the kinds that
/// `str::parse` reports for unsigned integers.
#[derive(Debug, PartialEq, Eq, Structural, Clone, Copy)]
pub enum IntErrorKind {
    /// The text is empty.
    Empty,
    /// The text holds something other than decimal digits (after an
    /// optional leading `+`).
    InvalidDigit,
    /// The number is larger than the type holds.
    PosOverflow,
}

impl IntErrorKind {
    /// The message that `ParseIntError` displays for this kind.
    pub fn description(&self) -> (msg: &'static str)
        ensures
            *self == IntErrorKind::Empty ==> msg@ == "cannot parse integer from empty string"@,
            *self == IntErrorKind::InvalidDigit ==> msg@ == "invalid digit found in string"@,
            *self == IntErrorKind::PosOverflow ==> msg@ == "number too large to fit in target type"@,
    {
        match self {
            IntErrorKind::Empty => "cannot parse integer from empty string",
            IntErrorKind::InvalidDigit => "invalid digit found in string",
            IntErrorKind::PosOverflow => "number too large to fit in target type",
        }
    }
}

/// `c` is one of `0` to `9`.
pub open spec fn is_digit(c: char) -> bool {
    '0' <= c <= '9'
}

/// The value of the decimal digit `c`.
pub open spec fn digit_value(c: char) -> nat {
    (c as int - '0' as int) as nat
}

/// Reading the digits `d` from left to right, as `str::parse` does: the
/// first character that is not a digit gives `InvalidDigit`, and the first
/// digit that takes the value above `max` gives `PosOverflow`.
pub open spec fn scan_digits(d: Seq<char>, max: nat) -> Result<nat, IntErrorKind>
    decreases d.len(),
{
    if d.len() == 0 {
        Ok(0)
    } else {
        match scan_digits(d.drop_last(), max) {
            Err(e) => Err(e),
            Ok(v) => if !is_digit(d.last()) {
                Err(IntErrorKind::InvalidDigit)
            } else if v * 10 + digit_value(d.last()) > max {
                Err(IntErrorKind::PosOverflow)
            } else {
                Ok(v * 10 + digit_value(d.last()))
            },
        }
    }
}

/// The unsigned integer, at most `max`, that `s` denotes for `str::parse`:
/// decimal digits after an optional leading `+`.
pub open spec fn parse_unsigned(s: Seq<char>, max: nat) -> Result<nat, IntErrorKind> {
    if s.len() == 0 {
        Err(IntErrorKind::Empty)
    } else if (s[0] == '+' || s[0] == '-') && s.len() == 1 {
        Err(IntErrorKind::InvalidDigit)
    } else if s[0] == '+' {
        scan_digits(s.subrange(1, s.len() as int), max)
    } else {
        scan_digits(s, max)
    }
}

/// Once a prefix of the digits fails, the whole fails the same way.
pub proof fn lemma_scan_error_sticks(d: Seq<char>, k: int, max: nat)
    requires
        0 <= k <= d.len(),
        scan_digits(d.subrange(0, k), max) is Err,
    ensures
        scan_digits(d, max) == scan_digits(d.subrange(0, k), max),
    decreases d.len(),
{
    if k == d.len() {
        assert(d.subrange(0, k) =~= d);
    } else {
        assert(d.drop_last().subrange(0, k) =~= d.subrange(0, k));
        lemma_scan_error_sticks(d.drop_last(), k, max);
    }
}

/// A successful scan stays within `max`.
pub proof fn lemma_scan_bounded(d: Seq<char>, max: nat)
    ensures
        scan_digits(d, max) matches Ok(v) ==> v <= max,
    decreases d.len(),
{
    if d.len() > 0 {
        lemma_scan_bounded(d.drop_last(), max);
    }
}

/// A single digit is read as its value.
pub proof fn lemma_parse_single_digit(c: char, max: nat)
    requires
        '0' <= c <= '9',
        c as int - '0' as int <= max,
    ensures
        parse_unsigned(seq![c], max) == Ok::<nat, IntErrorKind>((c as int - '0' as int) as nat),
{
    let s = seq![c];
    assert(s.drop_last() =~= Seq::<char>::empty());
    assert(s.last() == c);
    assert(s[0] == c);
    assert(scan_digits(s.drop_last(), max) == Ok::<nat, IntErrorKind>(0));
    assert(is_digit(c));
    assert(digit_value(c) == (c as int - '0' as int) as nat);
    assert(scan_digits(s, max) == Ok::<nat, IntErrorKind>(digit_value(c)));
}

/// Appending a digit multiplies the value read so far by ten and adds the
/// digit, as long as the result fits: the value of a digit string is its
/// positional decimal value, whatever its length.
pub proof fn lemma_parse_append_digit(s: Seq<char>, c: char, v: nat, max: nat)
    requires
        parse_unsigned(s, max) == Ok::<nat, IntErrorKind>(v),
        '0' <= c <= '9',
        v * 10 + (c as int - '0' as int) <= max,
    ensures
        parse_unsigned(s.push(c), max) == Ok::<nat, IntErrorKind>(
            (v * 10 + (c as int - '0' as int)) as nat,
        ),
{
    let t = s.push(c);
    assert(t[0] == s[0]);
    if s[0] == '+' {
        let d = s.subrange(1, s.len() as int);
        let e = t.subrange(1, t.len() as int);
        assert(e.drop_last() =~= d);
        assert(e.last() == c);
    } else {
        assert(t.drop_last() =~= s);
        assert(t.last() == c);
    }
}

/// Leading zeros before the digits are ignored while scanning.
proof fn lemma_scan_leading_zero(s: Seq<char>, max: nat)
    ensures
        scan_digits(seq!['0'] + s, max) == scan_digits(s, max),
    decreases s.len(),
{
    let z = seq!['0'] + s;
    if s.len() == 0 {
        assert(z =~= seq!['0']);
        assert(z.drop_last() =~= Seq::<char>::empty());
        assert(z.last() == '0');
        assert(scan_digits(z.drop_last(), max) == Ok::<nat, IntErrorKind>(0));
        assert(is_digit('0') && digit_value('0') == 0);
        assert(scan_digits(z, max) == Ok::<nat, IntErrorKind>(0));
    } else {
        lemma_scan_leading_zero(s.drop_last(), max);
        assert(z.drop_last() =~= seq!['0'] + s.drop_last());
        assert(z.last() == s.last());
        assert(scan_digits(z.drop_last(), max) == scan_digits(s.drop_last(), max));
    }
}

/// A leading zero does not change what a text reads as: `"05"` reads as
/// `"5"` does, and `"007"` as `"7"`.
pub proof fn lemma_parse_leading_zero(s: Seq<char>, max: nat)
    requires
        s.len() > 0,
        s[0] != '+',
    ensures
        parse_unsigned(seq!['0'] + s, max) == parse_unsigned(s, max),
{
    lemma_scan_leading_zero(s, max);
    let z = seq!['0'] + s;
    assert(z[0] == '0');
    assert(z.len() >= 2);
    assert(parse_unsigned(z, max) == scan_digits(z, max));
    if s[0] == '-' && s.len() == 1 {
        assert(s.drop_last() =~= Seq::<char>::empty());
        assert(s.last() == '-');
        assert(scan_digits(s.drop_last(), max) == Ok::<nat, IntErrorKind>(0));
        assert(!is_digit('-'));
        assert(scan_digits(s, max) == Err::<nat, IntErrorKind>(IntErrorKind::InvalidDigit));
    } else {
        assert(parse_unsigned(s, max) == scan_digits(s, max));
    }
}

/// Scans the digits of `d` from position `start` on (see `scan_digits`).
fn scan_digit_run(d: &Vec<char>, start: usize, max: u64) -> (r: Result<u64, IntErrorKind>)
    requires
        start <= d.len(),
    ensures
        match r {
            Ok(v) => scan_digits(d@.subrange(start as int, d.len() as int), max as nat) == Ok::<
                nat,
                IntErrorKind,
            >(v as nat),
            Err(e) => scan_digits(d@.subrange(start as int, d.len() as int), max as nat) == Err::<
                nat,
                IntErrorKind,
            >(e),
        },
{
    let ghost full = d@.subrange(start as int, d.len() as int);
    let mut acc: u64 = 0;
    let mut i: usize = start;
    assert(d@.subrange(start as int, start as int) =~= Seq::<char>::empty());
    while i < d.len()
        invariant
            start <= i <= d.len(),
            full == d@.subrange(start as int, d.len() as int),
            scan_digits(d@.subrange(start as int, i as int), max as nat) == Ok::<nat, IntErrorKind>(
                acc as nat,
            ),
            acc <= max,
        decreases d.len() - i,
    {
        let c = d[i];
        let ghost next = d@.subrange(start as int, i + 1);
        proof {
            assert(next.drop_last() =~= d@.subrange(start as int, i as int));
            assert(next.last() == c);
            assert(full.subrange(0, next.len() as int) =~= next);
        }
        if c < '0' || c > '9' {
            proof {
                lemma_scan_error_sticks(full, next.len() as int, max as nat);
            }
            return Err(IntErrorKind::InvalidDigit);
        }
        let dv: u64 = (c as u32 - '0' as u32) as u64;
        assert(dv as nat == digit_value(c));
        let wide: u128 = acc as u128 * 10 + dv as u128;
        if wide > max as u128 {
            proof {
                lemma_scan_error_sticks(full, next.len() as int, max as nat);
            }
            return Err(IntErrorKind::PosOverflow);
        }
        acc = wide as u64;
        i = i + 1;
    }
    assert(d@.subrange(start as int, i as int) =~= full);
    Ok(acc)
}

/// Parses `s` as an unsigned integer of at most `max` (see
/// `parse_unsigned`).
fn parse_bounded(s: &str, max: u64) -> (r: Result<u64, IntErrorKind>)
    ensures
        match r {
            Ok(v) => parse_unsigned(s@, max as nat) == Ok::<nat, IntErrorKind>(v as nat),
            Err(e) => parse_unsigned(s@, max as nat) == Err::<nat, IntErrorKind>(e),
        },
{
    let cs = chars_of(s);
    if cs.len() == 0 {
        return Err(IntErrorKind::Empty);
    }
    if (cs[0] == '+' || cs[0] == '-') && cs.len() == 1 {
        return Err(IntErrorKind::InvalidDigit);
    }
    if cs[0] == '+' {
        scan_digit_run(&cs, 1, max)
    } else {
        assert(cs@.subrange(0, cs.len() as int) =~= cs@);
        scan_digit_run(&cs, 0, max)
    }
}

/// Parses `s` as a `u8`, as `s.parse::<u8>()` does.
pub fn parse_u8(s: &str) -> (r: Result<u8, IntErrorKind>)
    ensures
        match r {
            Ok(v) => parse_unsigned(s@, 255) == Ok::<nat, IntErrorKind>(v as nat),
            Err(e) => parse_unsigned(s@, 255) == Err::<nat, IntErrorKind>(e),
        },
{
    match parse_bounded(s, 255) {
        Ok(v) => {
            proof {
                let t = s@;
                if t.len() > 0 && !((t[0] == '+' || t[0] == '-') && t.len() == 1) {
                    if t[0] == '+' {
                        lemma_scan_bounded(t.subrange(1, t.len() as int), 255);
                    } else {
                        lemma_scan_bounded(t, 255);
                    }
                }
            }
            Ok(v as u8)
        },
        Err(e) => Err(e),
    }
}

/// Parses `s` as a `u32`, as `s.parse::<u32>()` does.
pub fn parse_u32(s: &str) -> (r: Result<u32, IntErrorKind>)
    ensures
        match r {
            Ok(v) => parse_unsigned(s@, u32::MAX as nat) == Ok::<nat, IntErrorKind>(v as nat),
            Err(e) => parse_unsigned(s@, u32::MAX as nat) == Err::<nat, IntErrorKind>(e),
        },
{
    match parse_bounded(s, u32::MAX as u64) {
        Ok(v) => {
            proof {
                let t = s@;
                if t.len() > 0 && !((t[0] == '+' || t[0] == '-') && t.len() == 1) {
                    if t[0] == '+' {
                        lemma_scan_bounded(t.subrange(1, t.len() as int), u32::MAX as nat);
                    } else {
                        lemma_scan_bounded(t, u32::MAX as nat);
                    }
                }
            }
            Ok(v as u32)
        },
        Err(e) => Err(e),
    }
}

/// The pieces of `s` between occurrences of `", "`, as
/// `str::split(", ")` produces them (a `", "` can not overlap another, so
/// the occurrences found from the end are those found from the start).
pub open spec fn split_list(s: Seq<char>) -> Seq<Seq<char>>
    decreases s.len(),
{
    if s.len() == 0 {
        seq![Seq::empty()]
    } else if s.len() >= 2 && s[s.len() - 2] == ',' && s.last() == ' ' {
        split_list(s.subrange(0, s.len() - 2)).push(Seq::empty())
    } else {
        let r = split_list(s.drop_last());
        r.update(r.len() - 1, r.last().push(s.last()))
    }
}

/// Splitting always yields at least one piece.
pub proof fn lemma_split_list_nonempty(s: Seq<char>)
    ensures
        split_list(s).len() >= 1,
    decreases s.len(),
{
    if s.len() >= 2 && s[s.len() - 2] == ',' && s.last() == ' ' {
        lemma_split_list_nonempty(s.subrange(0, s.len() - 2));
    } else if s.len() > 0 {
        lemma_split_list_nonempty(s.drop_last());
    }
}

/// The character sequences held by `v`.
pub open spec fn views_of(v: Seq<Vec<char>>) -> Seq<Seq<char>> {
    Seq::new(v.len(), |i: int| v[i]@)
}

/// Splits `s` on `", "` (see `split_list`).
pub fn split_items(s: &str) -> (items: Vec<Vec<char>>)
    ensures
        views_of(items@) == split_list(s@),
{
    let cs = chars_of(s);
    let mut items: Vec<Vec<char>> = Vec::new();
    let mut cur: Vec<char> = Vec::new();
    let mut i: usize = 0;
    assert(cs@.subrange(0, 0) =~= Seq::<char>::empty());
    assert(views_of(items@).push(cur@) =~= split_list(Seq::<char>::empty()));
    while i < cs.len()
        invariant
            i <= cs.len(),
            cs@ == s@,
            views_of(items@).push(cur@) == split_list(cs@.subrange(0, i as int)),
            !(0 < i < cs.len() && cs@[i - 1] == ',' && cs@[i as int] == ' '),
        decreases cs.len() - i,
    {
        let ghost pre = cs@.subrange(0, i as int);
        let ghost old_views = views_of(items@);
        proof {
            lemma_split_list_nonempty(pre);
        }
        if cs[i] == ',' && i + 1 < cs.len() && cs[i + 1] == ' ' {
            let ghost next = cs@.subrange(0, i + 2);
            proof {
                assert(next.subrange(0, next.len() - 2) =~= pre);
                assert(next[next.len() - 2] == ',');
            }
            let ghost cur_view = cur@;
            items.push(cur);
            cur = Vec::new();
            proof {
                assert(views_of(items@) =~= old_views.push(cur_view));
                assert(views_of(items@).push(cur@) =~= split_list(pre).push(Seq::empty()));
            }
            i = i + 2;
        } else {
            let c = cs[i];
            let ghost next = cs@.subrange(0, i + 1);
            proof {
                assert(next.drop_last() =~= pre);
                assert(next.last() == c);
                if i > 0 {
                    assert(next[next.len() - 2] == cs@[i - 1]);
                }
            }
            cur.push(c);
            proof {
                let r = split_list(pre);
                assert(views_of(items@) == old_views);
                assert(views_of(items@).push(cur@) =~= r.update(r.len() - 1, r.last().push(c)));
            }
            i = i + 1;
        }
    }
    assert(cs@.subrange(0, cs.len() as int) =~= cs@);
    let ghost old_views = views_of(items@);
    let ghost cur_view = cur@;
    items.push(cur);
    assert(views_of(items@) =~= old_views.push(cur_view));
    items
}

/// Every piece of `pieces` is a `u8`.
pub open spec fn all_u8(pieces: Seq<Seq<char>>) -> bool {
    forall|i: int| 0 <= i < pieces.len() ==> (#[trigger] parse_unsigned(pieces[i], 255)) is Ok
}

/// The `u8` values of the pieces.
pub open spec fn u8_values(pieces: Seq<Seq<char>>) -> Seq<u8> {
    Seq::new(pieces.len(), |i: int| parse_unsigned(pieces[i], 255)->Ok_0 as u8)
}

/// The numbers of a `", "`-separated list such as `1, 3, 5`, read from the
/// first item on: the error of the first item that is not a `u8`, if any.
pub fn try_string_to_vec(input: &String) -> (res: Result<Vec<u8>, IntErrorKind>)
    ensures
        match res {
            Ok(v) => all_u8(split_list(input@)) && v@ == u8_values(split_list(input@)),
            Err(e) => exists|i: int|
                0 <= i < split_list(input@).len() && (forall|j: int|
                    0 <= j < i ==> (#[trigger] parse_unsigned(split_list(input@)[j], 255)) is Ok)
                    && parse_unsigned(split_list(input@)[i], 255) == Err::<nat, IntErrorKind>(e),
        },
{
    let items = split_items(input.as_str());
    let ghost pieces = split_list(input@);
    let mut out: Vec<u8> = Vec::new();
    let mut i: usize = 0;
    while i < items.len()
        invariant
            views_of(items@) == pieces,
            pieces == split_list(input@),
            i <= items.len(),
            out@.len() == i,
            forall|j: int| 0 <= j < i ==> (#[trigger] parse_unsigned(pieces[j], 255)) is Ok,
            forall|j: int| 0 <= j < i ==> out@[j] == parse_unsigned(pieces[j], 255)->Ok_0 as u8,
        decreases items.len() - i,
    {
        assert(views_of(items@)[i as int] == items@[i as int]@);
        let piece = crate::text::string_of(&items[i]);
        match parse_u8(piece.as_str()) {
            Ok(v) => {
                out.push(v);
            },
            Err(e) => {
                assert(parse_unsigned(pieces[i as int], 255) == Err::<nat, IntErrorKind>(e));
                return Err(e);
            },
        }
        i = i + 1;
    }
    assert(out@ =~= u8_values(pieces));
    Ok(out)
}

/// The numbers of a `", "`-separated list such as `1, 3, 5`. Every item
/// must be a `u8`.
pub fn string_to_vec(input: &String) -> (res: Vec<u8>)
    requires
        all_u8(split_list(input@)),
    ensures
        res@ == u8_values(split_list(input@)),
{
    match try_string_to_vec(input) {
        Ok(v) => v,
        Err(_) => Vec::new(),
    }
}

/// The decimal digit for `d` (below ten).
pub open spec fn digit_char(d: nat) -> char {
    ('0' as int + d) as char
}

/// `n` written in decimal without leading zeros.
pub open spec fn decimal_of(n: nat) -> Seq<char>
    decreases n,
{
    if n < 10 {
        seq![digit_char(n)]
    } else {
        decimal_of(n / 10).push(digit_char(n % 10))
    }
}

/// A decimal rendering is all digits and reads back as its number.
pub proof fn lemma_decimal_reads_back(n: nat, max: nat)
    requires
        n <= max,
    ensures
        scan_digits(decimal_of(n), max) == Ok::<nat, IntErrorKind>(n),
        decimal_of(n).len() > 0,
        forall|i: int| 0 <= i < decimal_of(n).len() ==> is_digit(#[trigger] decimal_of(n)[i]),
    decreases n,
{
    if n < 10 {
        let s = decimal_of(n);
        assert(s.drop_last() =~= Seq::<char>::empty());
        assert(scan_digits(s.drop_last(), max) == Ok::<nat, IntErrorKind>(0));
        assert(s.last() == digit_char(n));
        assert(is_digit(digit_char(n)));
        assert(digit_value(digit_char(n)) == n);
    } else {
        lemma_decimal_reads_back(n / 10, max);
        let s = decimal_of(n);
        assert(s.drop_last() =~= decimal_of(n / 10));
        assert(s.last() == digit_char(n % 10));
        assert(is_digit(digit_char(n % 10)));
        assert(digit_value(digit_char(n % 10)) == n % 10);
        assert((n / 10) * 10 + n % 10 == n);
        assert forall|i: int| 0 <= i < s.len() implies is_digit(#[trigger] s[i]) by {
            if i < s.len() - 1 {
                assert(s[i] == decimal_of(n / 10)[i]);
            }
        }
    }
}

/// Appending text free of `,` to a text that does not end in `,` extends
/// the last item of the list.
proof fn lemma_split_list_append(y: Seq<char>, p: Seq<char>)
    requires
        !p.contains(','),
        y.len() == 0 || y.last() != ',',
    ensures
        split_list(y + p) == split_list(y).update(
            split_list(y).len() - 1,
            split_list(y).last() + p,
        ),
    decreases p.len(),
{
    lemma_split_list_nonempty(y);
    let sy = split_list(y);
    if p.len() == 0 {
        assert(y + p =~= y);
        assert(sy.update(sy.len() - 1, sy.last() + p) =~= sy);
    } else {
        let q = p.drop_last();
        let c = p.last();
        assert(!q.contains(',')) by {
            assert forall|j: int| 0 <= j < q.len() implies q[j] != ',' by {
                assert(q[j] == p[j]);
            }
        }
        lemma_split_list_append(y, q);
        let t = y + p;
        assert(t.drop_last() =~= y + q);
        assert(t.last() == c);
        if t.len() >= 2 {
            if q.len() > 0 {
                assert(t[t.len() - 2] == q.last());
                assert(q.last() == p[q.len() - 1]);
            } else {
                assert(t[t.len() - 2] == y.last());
            }
        }
        let r = split_list(y + q);
        assert(split_list(t) == r.update(r.len() - 1, r.last().push(c)));
        assert((sy.last() + q).push(c) =~= sy.last() + p);
        assert(r.update(r.len() - 1, r.last().push(c)) =~= sy.update(sy.len() - 1, sy.last() + p));
    }
}

/// Items free of `,` joined with `", "` split back into the same items.
pub proof fn lemma_split_list_of_join(items: Seq<Seq<char>>)
    requires
        items.len() > 0,
        forall|i: int| 0 <= i < items.len() ==> !(#[trigger] items[i]).contains(','),
    ensures
        split_list(join_with(items, seq![',', ' '])) == items,
    decreases items.len(),
{
    if items.len() == 1 {
        lemma_split_list_append(Seq::<char>::empty(), items[0]);
        assert(Seq::<char>::empty() + items[0] =~= items[0]);
        assert(seq![Seq::<char>::empty()].update(0, Seq::<char>::empty() + items[0]) =~= items);
    } else {
        let dl = items.drop_last();
        assert forall|i: int| 0 <= i < dl.len() implies !(#[trigger] dl[i]).contains(',') by {
            assert(dl[i] == items[i]);
        }
        lemma_split_list_of_join(dl);
        let x = join_with(dl, seq![',', ' ']);
        let y = x + seq![',', ' '];
        assert(y.subrange(0, y.len() - 2) =~= x);
        assert(split_list(y) == split_list(x).push(Seq::<char>::empty()));
        let last = items[items.len() - 1];
        lemma_split_list_append(y, last);
        assert(join_with(items, seq![',', ' ']) =~= y + last);
        assert(dl.push(Seq::<char>::empty()).update(dl.len() as int, Seq::<char>::empty() + last)
            =~= items);
    }
}

/// The decimal renderings of `days`.
pub open spec fn decimals_of(days: Seq<u8>) -> Seq<Seq<char>> {
    Seq::new(days.len(), |i: int| decimal_of(days[i] as nat))
}

/// A week-day list written as the configuration expects it, the numbers in
/// decimal joined by `", "`, is read back as the same numbers.
pub proof fn lemma_day_list_round_trip(days: Seq<u8>)
    requires
        days.len() > 0,
    ensures
        all_u8(split_list(join_with(decimals_of(days), seq![',', ' ']))),
        u8_values(split_list(join_with(decimals_of(days), seq![',', ' ']))) == days,
{
    let items = decimals_of(days);
    assert forall|i: int| 0 <= i < items.len() implies !(#[trigger] items[i]).contains(',') && parse_unsigned(items[i], 255) == Ok::<nat, IntErrorKind>(days[i] as nat) by {
        lemma_decimal_reads_back(days[i] as nat, 255);
        let s = items[i];
        assert(s == decimal_of(days[i] as nat));
        assert(is_digit(s[0]));
        if s.contains(',') {
            let j = choose|j: int| 0 <= j < s.len() && s[j] == ',';
            assert(is_digit(s[j]));
        }
    }
    lemma_split_list_of_join(items);
    assert(u8_values(items) =~= days);
}

} // verus!
