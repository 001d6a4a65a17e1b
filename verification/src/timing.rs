//! Which date a file gets, and where it comes from: its metadata (Exif
//! for photos, `mvhd` for MP4-like videos, unless the video's date is
//! more than a day after the file's own dates, which a transfer that
//! rewrote it would give), else its name, else the dates of the file.
use vstd::prelude::*;
use crate::library::TsSource;
use crate::media::{is_image, is_image_ext, is_mp4_like, is_mp4_like_ext};
use crate::namedate::{filename_timestamp, name_date};
use crate::stamp::{
    Stamp, plausible, is_plausible, stamp_lt, stamp_le, is_earlier, next_date, prev_date,
    within_a_day, lemma_within_a_day_year,
};

verus! {

// ---------- the dates of the file ----------

/// The earliest plausible date among the candidates (the first of equal
/// ones), if any.
pub open spec fn earliest_plausible_of(c: Seq<Stamp>) -> Option<Stamp>
    decreases c.len(),
{
    if c.len() == 0 {
        None
    } else {
        let best = earliest_plausible_of(c.drop_last());
        let t = c.last();
        if plausible(t) && (best is None || stamp_lt(t, best->0)) {
            Some(t)
        } else {
            best
        }
    }
}

/// The earliest plausible date among the candidates.
pub fn earliest_plausible(c: &Vec<Stamp>) -> (r: Option<Stamp>)
    ensures
        r == earliest_plausible_of(c@),
{
    let mut best: Option<Stamp> = None;
    let mut i: usize = 0;
    while i < c.len()
        invariant
            i <= c.len(),
            best == earliest_plausible_of(c@.take(i as int)),
        decreases c.len() - i,
    {
        let t = c[i];
        assert(c@.take(i + 1).drop_last() =~= c@.take(i as int));
        assert(c@.take(i + 1).last() == t);
        let better = match best {
            None => true,
            Some(b) => is_earlier(&t, &b),
        };
        if is_plausible(&t) && better {
            best = Some(t);
        }
        i = i + 1;
    }
    assert(c@.take(i as int) =~= c@);
    best
}

/// Seconds from 1970 within which a file date is handled (about 190 000
/// years either way); the date library gives up on some dates far beyond.
pub open spec fn handled_time(secs: i64) -> bool {
    -6_000_000_000_000 < secs < 6_000_000_000_000
}

/// The calendar day `n` days after (`n` positive) or before (`n` negative)
/// `(y, m, d)`.
pub open spec fn shift_days(y: int, m: int, d: int, n: int) -> (int, int, int)
    decreases (if n < 0 { -n } else { n }),
{
    if n == 0 {
        (y, m, d)
    } else if n > 0 {
        let (y1, m1, d1) = next_date(y, m, d);
        shift_days(y1, m1, d1, n - 1)
    } else {
        let (y1, m1, d1) = prev_date(y, m, d);
        shift_days(y1, m1, d1, n + 1)
    }
}

/// The date and time in UTC of an instant `secs` seconds (and `nanos`
/// nanoseconds) from 1 January 1970, 00:00 UTC (the calendar counts no
/// leap seconds).
pub open spec fn utc_of_instant(secs: i64, nanos: u32) -> Stamp {
    let (y, m, d) = shift_days(1970, 1, 1, secs as int / 86400);
    let r = secs as int % 86400;
    Stamp { year: y as i32, month: m as u32, day: d as u32, hour: (r / 3600) as u32, minute: (r % 3600 / 60) as u32, second: (r % 60) as u32, nano: nanos }
}

/// The local date and time of an instant given in seconds and nanoseconds
/// from 1970-01-01 UTC (`chrono`: `DateTime::from_timestamp`, then
/// `with_timezone(&Local)` and `naive_local`, what `DateTime::<Local>::from`
/// does with a `SystemTime`). The contract states what `chrono`'s source
/// shows: with a fraction under a second and within its range (which the
/// `requires` keeps to), the instant is the calendar date and time
/// `utc_of_instant(secs, nanos)`, and the local time is that shifted by the
/// time zone's offset, a `FixedOffset` of less than a day, in whole
/// seconds (so the nanoseconds are kept). Which offset the machine's time zone gives is not stated.
#[verifier::external_body]
pub(crate) fn local_of_instant(secs: i64, nanos: u32) -> (r: Option<Stamp>)
    requires
        handled_time(secs),
        nanos < 1_000_000_000,
    ensures
        r is Some,
        r matches Some(s) ==> s.wf() && s.nano == nanos && within_a_day(s, utc_of_instant(secs, nanos)),
{
    let n = chrono::DateTime::from_timestamp(secs, nanos)?.with_timezone(&chrono::Local).naive_local();
    Some(Stamp {
        year: chrono::Datelike::year(&n),
        month: chrono::Datelike::month(&n),
        day: chrono::Datelike::day(&n),
        hour: chrono::Timelike::hour(&n),
        minute: chrono::Timelike::minute(&n),
        second: chrono::Timelike::second(&n),
        nano: chrono::Timelike::nanosecond(&n),
    })
}

/// The present local date and time (`chrono::Local::now().naive_local()`).
/// The contract says only that it exists.
#[verifier::external_body]
fn now_local() -> (r: Stamp)
    ensures
        r.wf(),
{
    let n = chrono::Local::now().naive_local();
    Stamp {
        year: chrono::Datelike::year(&n),
        month: chrono::Datelike::month(&n),
        day: chrono::Datelike::day(&n),
        hour: chrono::Timelike::hour(&n),
        minute: chrono::Timelike::minute(&n),
        second: chrono::Timelike::second(&n),
        nano: chrono::Timelike::nanosecond(&n),
    }
}

/// The date of a file from the local times of its dates on disk: the
/// earliest plausible one, else the present moment `now`.
pub fn fs_date_from(locals: &Vec<Stamp>, now: Stamp) -> (r: Stamp)
    ensures
        r == match earliest_plausible_of(locals@) {
            Some(t) => t,
            None => now,
        },
{
    match earliest_plausible(locals) {
        Some(t) => t,
        None => now,
    }
}

/// A file date given in seconds and nanoseconds from 1970, lying in UTC
/// between 1981 and 2198.
pub open spec fn clearly_plausible(t: Option<(i64, u32)>) -> bool {
    t matches Some(x) && 1981 <= utc_of_instant(x.0, x.1).year <= 2198
}

/// The local time `r` lies within a day of the given file date.
pub open spec fn near_instant(r: Stamp, t: Option<(i64, u32)>) -> bool {
    t matches Some(x) && within_a_day(r, utc_of_instant(x.0, x.1))
}

/// The local times standing for the file's dates, in order (last change,
/// then creation), each present when its date is given.
pub open spec fn file_locals(modified: Option<(i64, u32)>, lm: Stamp, created: Option<(i64, u32)>, lc: Stamp) -> Seq<Stamp> {
    (if modified is Some { seq![lm] } else { Seq::empty() }) + (if created is Some { seq![lc] } else { Seq::empty() })
}

/// `l` is a local time for the file date `t` (when given): a valid date
/// and time within a day of `t` in UTC.
pub open spec fn local_for(l: Stamp, t: Option<(i64, u32)>) -> bool {
    t matches Some(x) ==> l.wf() && within_a_day(l, utc_of_instant(x.0, x.1))
}

/// `fs_timestamp`: the date of a file from its dates on disk (last change,
/// creation; each given, when known, in seconds and nanoseconds from 1970):
/// the earliest plausible one in local time, else the present moment. The
/// date exists; when one of the dates lies in UTC between 1981 and 2198,
/// the result is plausible and lies within a day of one of the dates. The
/// choice is that of `fs_date_from`: there are local times for the given
/// dates (the time zone's offset being left open) whose earliest plausible
/// one is the result, when one of them is plausible.
pub fn fs_timestamp(modified: Option<(i64, u32)>, created: Option<(i64, u32)>) -> (r: Stamp)
    requires
        modified matches Some(m) ==> handled_time(m.0) && m.1 < 1_000_000_000,
        created matches Some(c) ==> handled_time(c.0) && c.1 < 1_000_000_000,
    ensures
        r.wf(),
        clearly_plausible(modified) || clearly_plausible(created) ==> plausible(r) && (near_instant(r, modified) || near_instant(r, created)),
        exists|lm: Stamp, lc: Stamp|
            #![trigger file_locals(modified, lm, created, lc)]
            local_for(lm, modified) && local_for(lc, created) && (earliest_plausible_of(
                file_locals(modified, lm, created, lc),
            ) matches Some(t) ==> r == t),
{
    let mut c: Vec<Stamp> = Vec::new();
    let ghost mut lm: Stamp = Stamp { year: 2000, month: 1, day: 1, hour: 0, minute: 0, second: 0, nano: 0 };
    let ghost mut lc: Stamp = lm;
    match modified {
        Some((s, n)) => match local_of_instant(s, n) {
            Some(t) => {
                proof {
                    lm = t;
                }
                proof {
                    if clearly_plausible(modified) {
                        lemma_within_a_day_year(t, utc_of_instant(s, n));
                    }
                }
                c.push(t);
            },
            None => {},
        },
        None => {},
    }
    let ghost after_modified = c@;
    match created {
        Some((s, n)) => match local_of_instant(s, n) {
            Some(t) => {
                proof {
                    lc = t;
                }
                proof {
                    if clearly_plausible(created) {
                        lemma_within_a_day_year(t, utc_of_instant(s, n));
                    }
                }
                c.push(t);
            },
            None => {},
        },
        None => {},
    }
    proof {
        lemma_earliest_is_candidate(c@);
        lemma_earliest_found(c@);
        assert forall|i: int| 0 <= i < c@.len() implies (#[trigger] c@[i]).wf() && (near_instant(c@[i], modified) || near_instant(c@[i], created)) by {
            if i < after_modified.len() {
                assert(c@[i] == after_modified[i]);
            }
        }
        if clearly_plausible(modified) || clearly_plausible(created) {
            if clearly_plausible(modified) {
                assert(plausible(c@[0]));
            } else {
                assert(plausible(c@[c@.len() - 1]));
            }
        }
        match earliest_plausible_of(c@) {
            Some(t) => {
                let i = choose|i: int| 0 <= i < c@.len() && c@[i] == t;
                assert(c@[i] == t);
            },
            None => {},
        }
    }
    assert(c@ =~= file_locals(modified, lm, created, lc));
    let now = now_local();
    let r = fs_date_from(&c, now);
    assert(local_for(lm, modified) && local_for(lc, created));
    r
}

/// When some candidate is plausible, the earliest plausible one is found,
/// and it is plausible.
proof fn lemma_earliest_found(c: Seq<Stamp>)
    ensures
        (exists|i: int| 0 <= i < c.len() && plausible(#[trigger] c[i])) ==> earliest_plausible_of(c) is Some,
        earliest_plausible_of(c) matches Some(t) ==> plausible(t),
    decreases c.len(),
{
    if c.len() > 0 {
        lemma_earliest_found(c.drop_last());
        if exists|i: int| 0 <= i < c.len() && plausible(#[trigger] c[i]) {
            let i = choose|i: int| 0 <= i < c.len() && plausible(#[trigger] c[i]);
            if i < c.len() - 1 {
                assert(c.drop_last()[i] == c[i]);
            }
        }
    }
}

proof fn lemma_earliest_is_candidate(c: Seq<Stamp>)
    ensures
        earliest_plausible_of(c) matches Some(t) ==> c.contains(t),
    decreases c.len(),
{
    if c.len() > 0 {
        lemma_earliest_is_candidate(c.drop_last());
        match earliest_plausible_of(c.drop_last()) {
            Some(t) => {
                if c.drop_last().contains(t) {
                    let i = choose|i: int| 0 <= i < c.drop_last().len() && c.drop_last()[i] == t;
                    assert(c[i] == t);
                }
            },
            None => {},
        }
        assert(c[c.len() - 1] == c.last());
    }
}

// ---------- choosing the date ----------

/// The date chosen for a file with extension `ext`, given the date in its
/// name, the date in its metadata (Exif for a photo, `mvhd` for an MP4-like
/// video, ignored otherwise) and the date of the file on disk.
pub open spec fn chosen_timestamp(ext: Seq<char>, name_ts: Option<Stamp>, meta: Option<Stamp>, fs_ts: Stamp) -> (Stamp, TsSource) {
    if is_image_ext(ext) && meta is Some {
        (meta->0, TsSource::Meta)
    } else if !is_image_ext(ext) && is_mp4_like_ext(ext) && meta is Some {
        if stamp_le(meta->0, fs_ts.one_day_later()) {
            (meta->0, TsSource::Meta)
        } else if name_ts is Some {
            (name_ts->0, TsSource::Name)
        } else {
            (fs_ts, TsSource::Meta)
        }
    } else if name_ts is Some {
        (name_ts->0, TsSource::Name)
    } else {
        (fs_ts, TsSource::FsDate)
    }
}

/// Chooses the date of a file and tells where it comes from.
pub fn choose_timestamp(ext: &str, name_ts: Option<Stamp>, meta: Option<Stamp>, fs_ts: Stamp) -> (r: (Stamp, TsSource))
    requires
        fs_ts.wf(),
        meta is Some && !is_image_ext(ext@) && is_mp4_like_ext(ext@) ==> !fs_ts.on_last_day(),
    ensures
        r == chosen_timestamp(ext@, name_ts, meta, fs_ts),
{
    if is_image(ext) {
        if let Some(ts) = meta {
            return (ts, TsSource::Meta);
        }
    } else if is_mp4_like(ext) {
        if let Some(ts) = meta {
            let limit = fs_ts.plus_one_day();
            if !is_earlier(&limit, &ts) {
                return (ts, TsSource::Meta);
            }
            if let Some(nts) = name_ts {
                return (nts, TsSource::Name);
            }
            return (fs_ts, TsSource::Meta);
        }
    }
    if let Some(ts) = name_ts {
        return (ts, TsSource::Name);
    }
    (fs_ts, TsSource::FsDate)
}

/// `timestamp_for`: the date of a file named `file_name` (when its path has
/// a name) with extension `ext`, given the date read in its metadata and
/// the date of the file on disk.
pub fn timestamp_for(file_name: Option<&str>, ext: &str, meta: Option<Stamp>, fs_ts: Stamp) -> (r: (Stamp, TsSource))
    requires
        fs_ts.wf(),
        meta is Some && !is_image_ext(ext@) && is_mp4_like_ext(ext@) ==> !fs_ts.on_last_day(),
    ensures
        r == chosen_timestamp(ext@, match file_name {
            Some(n) => name_date(n@),
            None => None,
        }, meta, fs_ts),
        (meta matches Some(m) ==> m.wf()) ==> r.0.wf(),
{
    proof {
        match file_name {
            Some(n) => crate::namedate::law_name_date_plausible(n@),
            None => {},
        }
    }
    let name_ts = match file_name {
        Some(n) => filename_timestamp(n),
        None => None,
    };
    choose_timestamp(ext, name_ts, meta, fs_ts)
}

} // verus!
