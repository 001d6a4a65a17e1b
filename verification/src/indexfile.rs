//! The index as saved in the library (`.tri-photos-index.json`): each
//! relative path with its date in milliseconds from 1970 (UTC), its size,
//! fingerprint and original name. The caller reads and writes the file;
//! these functions turn its records into the index and back.
use vstd::prelude::*;
use crate::library::{Index, IndexEntry, Rec, RecView, entry_views, rels_increasing, dates_valid};
use crate::stamp::Stamp;

verus! {

broadcast use vstd::string::group_string_axioms;

/// File name of the index, at the root of the library.
pub fn index_name() -> (r: &'static str)
    ensures
        r@ == ".tri-photos-index.json"@,
{
    ".tri-photos-index.json"
}

/// A record of the saved index.
pub struct IndexRecord {
    pub rel: String,
    pub ts: i64,
    pub size: u64,
    pub hash: String,
    pub original: String,
}

pub type RecordV = (Seq<char>, i64, u64, Seq<char>, Seq<char>);

impl View for IndexRecord {
    type V = RecordV;

    open spec fn view(&self) -> RecordV {
        (self.rel@, self.ts, self.size, self.hash@, self.original@)
    }
}

pub open spec fn record_views(v: Seq<IndexRecord>) -> Seq<RecordV> {
    v.map_values(|r: IndexRecord| r@)
}

/// What `chrono` gives for a count of milliseconds from 1970: the date and
/// time in UTC, when it is in range.
pub uninterp spec fn utc_of_millis(ms: i64) -> Option<Stamp>;

/// What `chrono` gives for a date and time taken as UTC: its count of
/// milliseconds from 1970 (fractions of a millisecond dropped).
pub uninterp spec fn utc_millis(s: Stamp) -> i64;

/// `DateTime::from_timestamp_millis(ms)`, then `naive_utc`. As `chrono`'s
/// source shows, the count is split into seconds and milliseconds (both
/// rounded down), and within the range of dates handled the result is
/// the calendar date and time of that instant; a date given back exists.
#[verifier::external_body]
fn stamp_of_millis(ms: i64) -> (r: Option<Stamp>)
    ensures
        r == utc_of_millis(ms),
        r matches Some(s) ==> s.wf(),
        crate::timing::handled_time((ms / 1000) as i64) ==> r == Some(
            crate::timing::utc_of_instant((ms / 1000) as i64, ((ms % 1000) * 1_000_000) as u32),
        ),
{
    let n = chrono::DateTime::from_timestamp_millis(ms)?.naive_utc();
    Some(Stamp {
        year: chrono::Datelike::year(&n),
        month: chrono::Datelike::month(&n),
        day: chrono::Datelike::day(&n),
        hour: chrono::Timelike::hour(&n),
        minute: chrono::Timelike::minute(&n),
        second: chrono::Timelike::second(&n),
        nano: chrono::Timelike::nanosecond(&n),
    })
}

/// The date and time to the millisecond, as a count of milliseconds keeps it.
pub open spec fn to_the_millisecond(s: Stamp) -> Stamp {
    Stamp { nano: (s.nano / 1_000_000 * 1_000_000) as u32, ..s }
}

/// `and_utc().timestamp_millis()` of the date and time. As `chrono`'s
/// source shows (the count is the seconds times 1000 plus the whole
/// milliseconds, and reading a count back splits it the same way), reading
/// the count back gives the same date and time, the fraction of a
/// millisecond dropped.
#[verifier::external_body]
fn millis_of_stamp(s: &Stamp) -> (r: i64)
    requires
        s.wf(),
    ensures
        r == utc_millis(*s),
        utc_of_millis(r) == Some(to_the_millisecond(*s)),
{
    chrono::NaiveDate::from_ymd_opt(s.year, s.month, s.day)
        .unwrap()
        .and_hms_nano_opt(s.hour, s.minute, s.second, s.nano)
        .unwrap()
        .and_utc()
        .timestamp_millis()
}

/// The entries loaded from the records: those whose count of milliseconds
/// gives a date, in order.
pub open spec fn loaded(recs: Seq<RecordV>) -> Seq<(Seq<char>, RecView)>
    decreases recs.len(),
{
    if recs.len() == 0 {
        Seq::empty()
    } else {
        let r = recs.last();
        let s = loaded(recs.drop_last());
        match utc_of_millis(r.1) {
            Some(ts) => s.push((r.0, (ts, r.2, r.3, r.4))),
            None => s,
        }
    }
}

/// `load_index`, once the file is read: the index of the records, in the
/// order of their paths (that of the saved map). Nothing when the paths are
/// not in strictly increasing order.
pub fn index_from_records(records: &Vec<IndexRecord>) -> (r: Option<Index>)
    ensures
        r is Some <==> rels_increasing_views(loaded(record_views(records@))),
        r matches Some(x) ==> x.wf() && entry_views(x.spec_entries()) == loaded(record_views(records@)),
{
    let ghost all = record_views(records@);
    let mut entries: Vec<IndexEntry> = Vec::new();
    let mut i: usize = 0;
    while i < records.len()
        invariant
            all == record_views(records@),
            i <= records.len(),
            entry_views(entries@) == loaded(all.take(i as int)),
            dates_valid(entries@),
        decreases records.len() - i,
    {
        let ghost before = entry_views(entries@);
        let r = &records[i];
        proof {
            assert(all.take(i + 1).drop_last() =~= all.take(i as int));
            assert(all.take(i + 1).last() == r@);
        }
        match stamp_of_millis(r.ts) {
            Some(ts) => {
                let e = IndexEntry {
                    rel: r.rel.clone(),
                    rec: Rec { ts, size: r.size, hash: r.hash.clone(), original: r.original.clone() },
                };
                entries.push(e);
                assert(entry_views(entries@) =~= before.push((r@.0, (ts, r@.2, r@.3, r@.4))));
            },
            None => {},
        }
        i = i + 1;
    }
    assert(all.take(i as int) =~= all);
    let ghost ev = entry_views(entries@);
    proof {
        assert forall|a: int| 0 <= a < entries@.len() implies #[trigger] ev[a].0 == entries@[a].rel@ by {}
        if rels_increasing_views(ev) {
            assert forall|a: int, b: int| 0 <= a < b < entries@.len() implies crate::order::text_lt(#[trigger] entries@[a].rel@, #[trigger] entries@[b].rel@) by {
                assert(ev[a].0 == entries@[a].rel@ && ev[b].0 == entries@[b].rel@);
            }
        }
        if rels_increasing(entries@) {
            assert forall|a: int, b: int| 0 <= a < b < ev.len() implies crate::order::text_lt(#[trigger] ev[a].0, #[trigger] ev[b].0) by {
                assert(ev[a].0 == entries@[a].rel@ && ev[b].0 == entries@[b].rel@);
            }
        }
    }
    Index::from_entries(entries)
}

/// The paths of the loaded entries are in strictly increasing order.
pub open spec fn rels_increasing_views(ev: Seq<(Seq<char>, RecView)>) -> bool {
    forall|i: int, j: int| 0 <= i < j < ev.len() ==> crate::order::text_lt(#[trigger] ev[i].0, #[trigger] ev[j].0)
}

/// `save_index`, before the file is written: a record per entry, its date
/// as a count of milliseconds.
pub fn records_of(entries: &Vec<(String, Rec)>) -> (r: Vec<IndexRecord>)
    requires
        forall|i: int| 0 <= i < entries.len() ==> (#[trigger] entries@[i]).1.ts.wf(),
    ensures
        r.len() == entries.len(),
        forall|i: int| 0 <= i < r.len() ==> #[trigger] r@[i]@ == (
            entries@[i].0@,
            utc_millis(entries@[i].1.ts),
            entries@[i].1.size,
            entries@[i].1.hash@,
            entries@[i].1.original@,
        ),
        forall|i: int| 0 <= i < r.len() ==> utc_of_millis(#[trigger] r@[i].ts) == Some(to_the_millisecond(entries@[i].1.ts)),
{
    let mut out: Vec<IndexRecord> = Vec::new();
    let mut i: usize = 0;
    while i < entries.len()
        invariant
            i <= entries.len(),
            out.len() == i,
            forall|j: int| 0 <= j < entries.len() ==> (#[trigger] entries@[j]).1.ts.wf(),
            forall|j: int| 0 <= j < out.len() ==> #[trigger] out@[j]@ == (
                entries@[j].0@,
                utc_millis(entries@[j].1.ts),
                entries@[j].1.size,
                entries@[j].1.hash@,
                entries@[j].1.original@,
            ),
            forall|j: int| 0 <= j < out.len() ==> utc_of_millis(#[trigger] out@[j].ts) == Some(to_the_millisecond(entries@[j].1.ts)),
        decreases entries.len() - i,
    {
        let (rel, rec) = (&entries[i].0, &entries[i].1);
        let ms = millis_of_stamp(&rec.ts);
        out.push(IndexRecord { rel: rel.clone(), ts: ms, size: rec.size, hash: rec.hash.clone(), original: rec.original.clone() });
        i = i + 1;
    }
    out
}

/// The records saved for some entries.
pub open spec fn saved_as(recs: Seq<RecordV>, e: Seq<(Seq<char>, RecView)>) -> bool {
    &&& recs.len() == e.len()
    &&& forall|i: int| 0 <= i < recs.len() ==> {
        let (r, x) = (#[trigger] recs[i], e[i]);
        &&& r.0 == x.0
        &&& r.2 == x.1.1
        &&& r.3 == x.1.2
        &&& r.4 == x.1.3
        &&& utc_of_millis(r.1) == Some(to_the_millisecond(x.1.0))
    }
}

/// The entries with their dates to the millisecond.
pub open spec fn to_the_millisecond_all(e: Seq<(Seq<char>, RecView)>) -> Seq<(Seq<char>, RecView)> {
    e.map_values(|x: (Seq<char>, RecView)| (x.0, (to_the_millisecond(x.1.0), x.1.1, x.1.2, x.1.3)))
}

/// Loading what was saved gives back the entries saved, their dates to
/// the millisecond (`records_of` saves records of this kind).
pub proof fn law_saved_index_loads_back(recs: Seq<RecordV>, e: Seq<(Seq<char>, RecView)>)
    requires
        saved_as(recs, e),
    ensures
        loaded(recs) == to_the_millisecond_all(e),
    decreases recs.len(),
{
    if recs.len() > 0 {
        let n = recs.len() - 1;
        assert(saved_as(recs.drop_last(), e.drop_last())) by {
            assert forall|i: int| 0 <= i < n implies {
                let (r, x) = (#[trigger] recs.drop_last()[i], e.drop_last()[i]);
                &&& r.0 == x.0
                &&& r.2 == x.1.1
                &&& r.3 == x.1.2
                &&& r.4 == x.1.3
                &&& utc_of_millis(r.1) == Some(to_the_millisecond(x.1.0))
            } by {
                assert(recs.drop_last()[i] == recs[i] && e.drop_last()[i] == e[i]);
            }
        }
        law_saved_index_loads_back(recs.drop_last(), e.drop_last());
        assert(recs.last() == recs[n] && e.last() == e[n]);
        assert(to_the_millisecond_all(e) =~= to_the_millisecond_all(e.drop_last()).push(
            (e[n].0, (to_the_millisecond(e[n].1.0), e[n].1.1, e[n].1.2, e[n].1.3)),
        ));
    } else {
        assert(to_the_millisecond_all(e) =~= Seq::<(Seq<char>, RecView)>::empty());
    }
}

} // verus!
