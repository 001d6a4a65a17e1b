//! The date written in a file name: `IMG-20260410-WA0012`,
//! `PXL_20260410_150312123`, `WhatsApp Video 2026-04-10 at 14.30.22`,
//! `Capture d'écran 2026-04-10 à 17.03.12`… A regular expression finds the
//! candidates; the first one that makes a plausible date wins. Without a
//! time in the name, the time is 12:00 (neutral within the day).
use vstd::prelude::*;
use crate::stamp::{Stamp, valid_date, plausible, is_valid_date, is_plausible};
use crate::text::{all_digits, digits_value, is_digit, digit_value, chars_of};

verus! {

broadcast use vstd::string::group_string_axioms;

// ---------- reading integers ----------

/// The digits after an optional `+`, when there is at least one and all
/// are ASCII digits: their value.
pub open spec fn unsigned_value(s: Seq<char>) -> Option<nat> {
    let body = if s.len() > 0 && s[0] == '+' { s.skip(1) } else { s };
    if body.len() > 0 && all_digits(body) {
        Some(digits_value(body))
    } else {
        None
    }
}

/// What std's `str::parse::<u32>` gives, when it succeeds.
pub open spec fn parse_u32(s: Seq<char>) -> Option<u32> {
    match unsigned_value(s) {
        Some(v) => if v <= u32::MAX { Some(v as u32) } else { None },
        None => None,
    }
}

/// What std's `str::parse::<i32>` gives, when it succeeds: an optional
/// sign, then ASCII digits, within the range of `i32`.
pub open spec fn parse_i32(s: Seq<char>) -> Option<i32> {
    if s.len() > 0 && s[0] == '-' {
        let body = s.skip(1);
        if body.len() > 0 && all_digits(body) && digits_value(body) <= 0x8000_0000 {
            Some((0 - digits_value(body)) as i32)
        } else {
            None
        }
    } else {
        match unsigned_value(s) {
            Some(v) => if v <= i32::MAX { Some(v as i32) } else { None },
            None => None,
        }
    }
}

/// The value of the digits, capped at `cap`; nothing if there is no
/// digit or a character that is not one.
fn digits_capped(s: &[char], cap: u64) -> (r: Option<u64>)
    requires
        0 < cap <= 0x1_0000_0000_0000,
    ensures
        r is Some <==> s@.len() > 0 && all_digits(s@),
        r matches Some(v) ==> v == (if digits_value(s@) < cap { digits_value(s@) } else { cap as nat }),
{
    if s.len() == 0 {
        return None;
    }
    let mut v: u64 = 0;
    let mut i: usize = 0;
    while i < s.len()
        invariant
            0 < cap <= 0x1_0000_0000_0000,
            i <= s.len(),
            all_digits(s@.take(i as int)),
            v == (if digits_value(s@.take(i as int)) < cap { digits_value(s@.take(i as int)) } else { cap as nat }),
        decreases s.len() - i,
    {
        let c = s[i];
        if !('0' <= c && c <= '9') {
            assert(!all_digits(s@)) by {
                assert(!is_digit(s@[i as int]));
            }
            return None;
        }
        let d = (c as u32 - '0' as u32) as u64;
        let ghost pre = s@.take(i as int);
        assert(s@.take(i + 1).drop_last() =~= pre);
        assert(s@.take(i + 1).last() == c);
        assert(digits_value(s@.take(i + 1)) == digits_value(pre) * 10 + digit_value(c));
        if v >= cap {
            assert(digits_value(pre) * 10 + digit_value(c) >= cap) by (nonlinear_arith)
                requires
                    digits_value(pre) >= cap,
            ;
        } else {
            let w = v * 10 + d;
            v = if w < cap { w } else { cap };
        }
        i = i + 1;
        assert(all_digits(s@.take(i as int))) by {
            assert forall|j: int| 0 <= j < i implies is_digit(#[trigger] s@.take(i as int)[j]) by {
                if j < i - 1 {
                    assert(s@.take(i as int)[j] == pre[j]);
                }
            }
        }
    }
    assert(s@.take(i as int) =~= s@);
    Some(v)
}

/// `str::parse::<u32>`, on characters.
pub fn parse_u32_chars(s: &[char]) -> (r: Option<u32>)
    ensures
        r == parse_u32(s@),
{
    let body: &[char] = if s.len() > 0 && s[0] == '+' { slice_from(s, 1) } else { s };
    assert(body@ == (if s@.len() > 0 && s@[0] == '+' { s@.skip(1) } else { s@ }));
    match digits_capped(body, 0x1_0000_0000) {
        Some(v) => if v <= 0xffff_ffff { Some(v as u32) } else { None },
        None => None,
    }
}

/// `str::parse::<i32>`, on characters.
pub fn parse_i32_chars(s: &[char]) -> (r: Option<i32>)
    ensures
        r == parse_i32(s@),
{
    if s.len() > 0 && s[0] == '-' {
        let body = slice_from(s, 1);
        match digits_capped(body, 0x8000_0001) {
            Some(v) => if v <= 0x8000_0000 {
                let n: i64 = 0 - (v as i64);
                Some(n as i32)
            } else {
                None
            },
            None => None,
        }
    } else {
        let body: &[char] = if s.len() > 0 && s[0] == '+' { slice_from(s, 1) } else { s };
        assert(body@ == (if s@.len() > 0 && s@[0] == '+' { s@.skip(1) } else { s@ }));
        match digits_capped(body, 0x8000_0000) {
            Some(v) => if v <= 0x7fff_ffff { Some(v as i32) } else { None },
            None => None,
        }
    }
}

fn slice_from(s: &[char], k: usize) -> (r: &[char])
    requires
        k <= s.len(),
    ensures
        r@ == s@.skip(k as int),
{
    let r = vstd::slice::slice_subrange(s, k, s.len());
    assert(r@ =~= s@.skip(k as int));
    r
}

// ---------- the date of one candidate ----------

/// A group of a match, when the match has it.
pub open spec fn group(row: Seq<Option<Seq<char>>>, i: int) -> Option<Seq<char>> {
    if 0 <= i < row.len() {
        row[i]
    } else {
        None
    }
}

/// The time of day of a candidate: hours, minutes and optional seconds
/// when they make a time, else 12:00:00.
pub open spec fn time_of_row(row: Seq<Option<Seq<char>>>) -> (u32, u32, u32) {
    match (group(row, 4), group(row, 5)) {
        (Some(hs), Some(ms)) => {
            let h = match parse_u32(hs) { Some(v) => v, None => 99u32 };
            let mi = match parse_u32(ms) { Some(v) => v, None => 99u32 };
            let s = match group(row, 6) {
                Some(ss) => match parse_u32(ss) { Some(v) => v, None => 0u32 },
                None => 0u32,
            };
            if h <= 23 && mi <= 59 && s <= 59 {
                (h, mi, s)
            } else {
                (12u32, 0u32, 0u32)
            }
        },
        _ => (12u32, 0u32, 0u32),
    }
}

/// The date of a candidate (groups 1 to 3: year, month, day; 4 to 6: hours,
/// minutes, seconds), when it is a plausible date.
pub open spec fn stamp_of_row(row: Seq<Option<Seq<char>>>) -> Option<Stamp> {
    match (group(row, 1), group(row, 2), group(row, 3)) {
        (Some(ys), Some(mos), Some(ds)) => match (parse_i32(ys), parse_u32(mos), parse_u32(ds)) {
            (Some(y), Some(mo), Some(d)) => if valid_date(y as int, mo as int, d as int) {
                let (h, mi, s) = time_of_row(row);
                let st = Stamp { year: y, month: mo, day: d, hour: h, minute: mi, second: s, nano: 0 };
                if plausible(st) {
                    Some(st)
                } else {
                    None
                }
            } else {
                None
            },
            _ => None,
        },
        _ => None,
    }
}

/// The first candidate that gives a date.
pub open spec fn first_stamp(rows: Seq<Seq<Option<Seq<char>>>>) -> Option<Stamp>
    decreases rows.len(),
{
    if rows.len() == 0 {
        None
    } else {
        match stamp_of_row(rows[0]) {
            Some(s) => Some(s),
            None => first_stamp(rows.drop_first()),
        }
    }
}

/// A date read in a name is plausible and exists.
pub proof fn lemma_first_stamp_valid(rows: Seq<Seq<Option<Seq<char>>>>)
    ensures
        first_stamp(rows) matches Some(s) ==> plausible(s) && s.wf(),
    decreases rows.len(),
{
    if rows.len() > 0 {
        lemma_first_stamp_valid(rows.drop_first());
    }
}

/// Without hours and minutes in the name, the time is 12:00:00.
pub proof fn law_noon_without_time(row: Seq<Option<Seq<char>>>)
    requires
        group(row, 4) is None || group(row, 5) is None,
    ensures
        stamp_of_row(row) matches Some(s) ==> s.hour == 12 && s.minute == 0 && s.second == 0,
{
}

pub open spec fn group_views(row: Seq<Option<String>>) -> Seq<Option<Seq<char>>> {
    row.map_values(|g: Option<String>| match g {
        Some(s) => Some(s@),
        None => None,
    })
}

pub open spec fn capture_views(rows: Seq<Vec<Option<String>>>) -> Seq<Seq<Option<Seq<char>>>> {
    rows.map_values(|row: Vec<Option<String>>| group_views(row@))
}

fn group_chars(row: &Vec<Option<String>>, i: usize) -> (r: Option<Vec<char>>)
    ensures
        r matches Some(v) ==> group(group_views(row@), i as int) == Some(v@),
        r is None ==> group(group_views(row@), i as int) is None,
{
    if i < row.len() {
        match &row[i] {
            Some(s) => Some(chars_of(s.as_str())),
            None => None,
        }
    } else {
        None
    }
}

fn time_of(row: &Vec<Option<String>>) -> (r: (u32, u32, u32))
    ensures
        r == time_of_row(group_views(row@)),
{
    match (group_chars(row, 4), group_chars(row, 5)) {
        (Some(hs), Some(ms)) => {
            let h = match parse_u32_chars(&hs) { Some(v) => v, None => 99 };
            let mi = match parse_u32_chars(&ms) { Some(v) => v, None => 99 };
            let s = match group_chars(row, 6) {
                Some(ss) => match parse_u32_chars(&ss) { Some(v) => v, None => 0 },
                None => 0,
            };
            if h <= 23 && mi <= 59 && s <= 59 {
                (h, mi, s)
            } else {
                (12, 0, 0)
            }
        },
        _ => (12, 0, 0),
    }
}

/// The date of one match of the name's pattern, when it gives one.
pub fn stamp_of_match(row: &Vec<Option<String>>) -> (r: Option<Stamp>)
    ensures
        r == stamp_of_row(group_views(row@)),
{
    let (ys, mos, ds) = match (group_chars(row, 1), group_chars(row, 2), group_chars(row, 3)) {
        (Some(a), Some(b), Some(c)) => (a, b, c),
        _ => { return None; },
    };
    let (y, mo, d) = match (parse_i32_chars(&ys), parse_u32_chars(&mos), parse_u32_chars(&ds)) {
        (Some(y), Some(mo), Some(d)) => (y, mo, d),
        _ => { return None; },
    };
    if !is_valid_date(y, mo, d) {
        return None;
    }
    let (h, mi, s) = time_of(row);
    let st = Stamp { year: y, month: mo, day: d, hour: h, minute: mi, second: s, nano: 0 };
    if is_plausible(&st) {
        Some(st)
    } else {
        None
    }
}

/// The date given by the first match that gives one.
pub fn timestamp_from_captures(rows: &Vec<Vec<Option<String>>>) -> (r: Option<Stamp>)
    ensures
        r == first_stamp(capture_views(rows@)),
{
    let ghost all = capture_views(rows@);
    let mut i: usize = 0;
    assert(all.skip(0) =~= all);
    while i < rows.len()
        invariant
            all == capture_views(rows@),
            i <= rows.len(),
            first_stamp(all) == first_stamp(all.skip(i as int)),
        decreases rows.len() - i,
    {
        let ghost rest = all.skip(i as int);
        assert(rest[0] == group_views(rows@[i as int]@));
        match stamp_of_match(&rows[i]) {
            Some(s) => {
                return Some(s);
            },
            None => {},
        }
        assert(rest.drop_first() =~= all.skip(i + 1));
        i = i + 1;
    }
    assert(all.skip(i as int).len() == 0);
    None
}

// ---------- the pattern ----------

/// The pattern of a date in a file name: year (20xx), month and day with
/// optional separators, then optionally hours, minutes and seconds, with
/// "at" or "à" allowed in between.
pub open spec fn name_pattern() -> Seq<char> {
    r"(20\d{2})[-_.]?(\d{2})[-_.]?(\d{2})(?:[\s\-_.]*(?:at|à)?[\s\-_.]*(\d{1,2})[h\-_.:]?(\d{2})(?:[m\-_.:]?(\d{2}))?)?"@
}

fn name_pattern_str() -> (r: &'static str)
    ensures
        r@ == name_pattern(),
{
    r"(20\d{2})[-_.]?(\d{2})[-_.]?(\d{2})(?:[\s\-_.]*(?:at|à)?[\s\-_.]*(\d{1,2})[h\-_.:]?(\d{2})(?:[m\-_.:]?(\d{2}))?)?"
}

/// What the `regex` crate gives for a pattern and a text: nothing when the
/// pattern does not compile, else, for each successive non-overlapping
/// match, the text of each group (group 0 being the whole match), when the
/// group took part in the match.
pub uninterp spec fn regex_captures(pattern: Seq<char>, text: Seq<char>) -> Option<Seq<Seq<Option<Seq<char>>>>>;

/// `regex::Regex::new` then `captures_iter`: the groups of every match, in
/// order. The contract says only that the result is the one `regex_captures`
/// names; what the regular expression engine matches is not stated.
#[verifier::external_body]
fn captures_of(pattern: &str, text: &str) -> (r: Option<Vec<Vec<Option<String>>>>)
    ensures
        r is None <==> regex_captures(pattern@, text@) is None,
        r matches Some(rows) ==> regex_captures(pattern@, text@) == Some(capture_views(rows@)),
{
    let re = match regex::Regex::new(pattern) {
        Ok(re) => re,
        Err(_) => return None,
    };
    let mut rows: Vec<Vec<Option<String>>> = Vec::new();
    for cap in re.captures_iter(text) {
        rows.push(cap.iter().map(|g| g.map(|m| m.as_str().to_string())).collect());
    }
    Some(rows)
}

/// The date written in a file name: that of the first match of the
/// pattern that gives one.
pub open spec fn name_date(name: Seq<char>) -> Option<Stamp> {
    match regex_captures(name_pattern(), name) {
        Some(rows) => first_stamp(rows),
        None => None,
    }
}

/// A date read in a file name is plausible (between 1980 and 2199) and
/// exists.
pub proof fn law_name_date_plausible(name: Seq<char>)
    ensures
        name_date(name) matches Some(s) ==> plausible(s) && s.wf(),
{
    match regex_captures(name_pattern(), name) {
        Some(rows) => lemma_first_stamp_valid(rows),
        None => {},
    }
}

/// `filename_timestamp`: the date written in a file name, if any.
pub fn filename_timestamp(name: &str) -> (r: Option<Stamp>)
    ensures
        r == name_date(name@),
{
    match captures_of(name_pattern_str(), name) {
        Some(rows) => timestamp_from_captures(&rows),
        None => None,
    }
}

} // verus!
