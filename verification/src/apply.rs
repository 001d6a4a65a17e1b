//! Carrying out a plan: the caller performs each rename and copy on disk
//! and reports how it went; the run keeps the summary and the index up to
//! date.
use vstd::prelude::*;
use crate::library::{Rec, RecView};
use crate::indexfile::{IndexRecord, records_of, utc_millis};
use crate::plan::{CopyPlan, Plan, RenamePlan, rec_views, recs_valid};
use crate::stamp::Stamp;
use crate::strmap::{StrMap, Table};
use crate::text::{chars_of, string_of, append_chars};

verus! {

broadcast use vstd::string::group_string_axioms;

/// Where a run stands, for a progress display: the phase (`scan`,
/// `analyze`, `apply`), how many steps are done out of how many, and a
/// message.
pub struct Progress {
    pub phase: String,
    pub done: usize,
    pub total: usize,
    pub message: Option<String>,
}

impl Progress {
    /// The folders given are being scanned.
    pub fn scanning() -> (r: Progress)
        ensures
            r.phase@ == "scan"@,
            r.done == 0,
            r.total == 0,
            r.message matches Some(m) && m@ == "Analyse des dossiers…"@,
    {
        Progress {
            phase: String::from_str("scan"),
            done: 0,
            total: 0,
            message: Some(String::from_str("Analyse des dossiers…")),
        }
    }

    /// `done` of the `total` new files are analysed.
    pub fn analyzing(done: usize, total: usize) -> (r: Progress)
        ensures
            r.phase@ == "analyze"@,
            r.done == done,
            r.total == total,
            r.message is None,
    {
        Progress { phase: String::from_str("analyze"), done, total, message: None }
    }

    /// `done` of the `total` renames and copies are carried out.
    pub fn applying(done: usize, total: usize) -> (r: Progress)
        ensures
            r.phase@ == "apply"@,
            r.done == done,
            r.total == total,
            r.message is None,
    {
        Progress { phase: String::from_str("apply"), done, total, message: None }
    }
}

/// What a run did: files imported, duplicates met, files renamed, dates
/// corrected, names of the files sent to the triage folder, and errors.
pub struct Summary {
    pub imported: usize,
    pub duplicates: usize,
    pub renamed: usize,
    pub updated: usize,
    pub uncertain: Vec<String>,
    pub errors: Vec<String>,
}

pub type SummaryV = (nat, nat, nat, nat, Seq<Seq<char>>, Seq<Seq<char>>);

pub open spec fn texts(v: Seq<String>) -> Seq<Seq<char>> {
    v.map_values(|s: String| s@)
}

impl View for Summary {
    type V = SummaryV;

    open spec fn view(&self) -> SummaryV {
        (
            self.imported as nat,
            self.duplicates as nat,
            self.renamed as nat,
            self.updated as nat,
            texts(self.uncertain@),
            texts(self.errors@),
        )
    }
}

impl Default for Summary {
    fn default() -> (r: Summary)
        ensures
            r@ == (0nat, 0nat, 0nat, 0nat, Seq::<Seq<char>>::empty(), Seq::<Seq<char>>::empty()),
    {
        let r = Summary {
            imported: 0,
            duplicates: 0,
            renamed: 0,
            updated: 0,
            uncertain: Vec::new(),
            errors: Vec::new(),
        };
        assert(texts(r.uncertain@) =~= Seq::<Seq<char>>::empty());
        assert(texts(r.errors@) =~= Seq::<Seq<char>>::empty());
        r
    }
}

/// `a`, then `b`, then `c`.
fn concat3(a: &str, b: &str, c: &str) -> (r: String)
    ensures
        r@ == a@ + b@ + c@,
{
    let mut v = chars_of(a);
    append_chars(&mut v, chars_of(b).as_slice());
    append_chars(&mut v, chars_of(c).as_slice());
    string_of(&v)
}

/// `a`, then `b`, then `c`, then `d`.
fn concat4(a: &str, b: &str, c: &str, d: &str) -> (r: String)
    ensures
        r@ == a@ + b@ + c@ + d@,
{
    let mut v = chars_of(a);
    append_chars(&mut v, chars_of(b).as_slice());
    append_chars(&mut v, chars_of(c).as_slice());
    append_chars(&mut v, chars_of(d).as_slice());
    string_of(&v)
}

/// The message of a rename that could not start.
pub open spec fn rename_from_error(from: Seq<char>, err: Seq<char>) -> Seq<char> {
    "Renommage de "@ + from + " : "@ + err
}

/// The message of a rename that could not end.
pub open spec fn rename_to_error(to: Seq<char>, err: Seq<char>) -> Seq<char> {
    "Renommage vers "@ + to + " : "@ + err
}

/// The message of a copy that failed.
pub open spec fn copy_error(name: Seq<char>, err: Seq<char>) -> Seq<char> {
    name + " : "@ + err
}

/// A run under way: its summary, the index as it will be saved, and the
/// fingerprints of the files whose date was corrected.
pub struct Run {
    pub summary: Summary,
    pub index: Table<Rec>,
    pub healed: StrMap<()>,
}

impl Run {
    pub open spec fn wf(&self) -> bool {
        self.index.wf() && self.healed.wf() && recs_valid(self.index_view())
    }

    pub open spec fn index_view(&self) -> Map<Seq<char>, RecView> {
        rec_views(self.index@)
    }

    /// Starts carrying out a plan; `errors` are those met while analysing
    /// the new files.
    pub fn start(plan: Plan, errors: Vec<String>) -> (r: Run)
        requires
            plan.index.wf(),
            plan.healed.wf(),
            recs_valid(plan@.2),
        ensures
            r.wf(),
            r.summary@ == (0nat, plan@.4, 0nat, plan@.5, Seq::<Seq<char>>::empty(), texts(errors@)),
            r.index_view() == plan@.2,
            r.healed@ == plan.healed@,
    {
        let uncertain: Vec<String> = Vec::new();
        assert(texts(uncertain@) =~= Seq::<Seq<char>>::empty());
        Run {
            summary: Summary {
                imported: 0,
                duplicates: plan.duplicates,
                renamed: 0,
                updated: plan.updated,
                uncertain,
                errors,
            },
            index: plan.index,
            healed: plan.healed,
        }
    }

    fn push_error(&mut self, msg: String)
        ensures
            final(self).summary@ == (
                old(self).summary@.0,
                old(self).summary@.1,
                old(self).summary@.2,
                old(self).summary@.3,
                old(self).summary@.4,
                old(self).summary@.5.push(msg@),
            ),
            final(self).index == old(self).index,
            final(self).healed == old(self).healed,
    {
        let ghost before = texts(self.summary.errors@);
        self.summary.errors.push(msg);
        assert(texts(self.summary.errors@) =~= before.push(msg@));
    }

    /// A file could not be moved aside before its rename: the error is
    /// kept, and its new path leaves the index.
    pub fn rename_not_started(&mut self, r: &RenamePlan, err: &str)
        requires
            old(self).wf(),
        ensures
            final(self).wf(),
            final(self).summary@ == (
                old(self).summary@.0,
                old(self).summary@.1,
                old(self).summary@.2,
                old(self).summary@.3,
                old(self).summary@.4,
                old(self).summary@.5.push(rename_from_error(r.from@, err@)),
            ),
            final(self).index_view() == old(self).index_view().remove(r.to@),
            final(self).healed@ == old(self).healed@,
    {
        let msg = concat4("Renommage de ", r.from.as_str(), " : ", err);
        self.push_error(msg);
        let ghost before = self.index@;
        self.index.remove(r.to.as_str());
        assert(rec_views(self.index@) =~= rec_views(before).remove(r.to@));
    }

    /// A rename is done.
    pub fn rename_done(&mut self)
        requires
            old(self).summary.renamed < usize::MAX,
        ensures
            final(self).summary@ == (
                old(self).summary@.0,
                old(self).summary@.1,
                old(self).summary@.2 + 1,
                old(self).summary@.3,
                old(self).summary@.4,
                old(self).summary@.5,
            ),
            final(self).index == old(self).index,
            final(self).healed == old(self).healed,
    {
        self.summary.renamed = self.summary.renamed + 1;
    }

    /// A file moved aside could not reach its new path: the error is kept,
    /// and that path leaves the index.
    pub fn rename_failed(&mut self, to: &str, err: &str)
        requires
            old(self).wf(),
        ensures
            final(self).wf(),
            final(self).summary@ == (
                old(self).summary@.0,
                old(self).summary@.1,
                old(self).summary@.2,
                old(self).summary@.3,
                old(self).summary@.4,
                old(self).summary@.5.push(rename_to_error(to@, err@)),
            ),
            final(self).index_view() == old(self).index_view().remove(to@),
            final(self).healed@ == old(self).healed@,
    {
        let msg = concat4("Renommage vers ", to, " : ", err);
        self.push_error(msg);
        let ghost before = self.index@;
        self.index.remove(to);
        assert(rec_views(self.index@) =~= rec_views(before).remove(to@));
    }

    /// A copy is done: the file enters the index, and counts as imported,
    /// or, in the triage folder, as uncertain under its original name.
    pub fn copy_done(&mut self, c: CopyPlan)
        requires
            old(self).wf(),
            old(self).summary.imported < usize::MAX,
            c.rec.ts.wf(),
        ensures
            final(self).wf(),
            final(self).summary@ == (if c.review {
                (
                    old(self).summary@.0,
                    old(self).summary@.1,
                    old(self).summary@.2,
                    old(self).summary@.3,
                    old(self).summary@.4.push(c.rec.original@),
                    old(self).summary@.5,
                )
            } else {
                (
                    old(self).summary@.0 + 1,
                    old(self).summary@.1,
                    old(self).summary@.2,
                    old(self).summary@.3,
                    old(self).summary@.4,
                    old(self).summary@.5,
                )
            }),
            final(self).index_view() == old(self).index_view().insert(c.to@, c.rec@),
            final(self).healed@ == old(self).healed@,
    {
        if c.review {
            let ghost before = texts(self.summary.uncertain@);
            let name = c.rec.original.clone();
            self.summary.uncertain.push(name);
            assert(texts(self.summary.uncertain@) =~= before.push(c.rec.original@));
        } else {
            self.summary.imported = self.summary.imported + 1;
        }
        let ghost before = self.index@;
        let ghost rv = c.rec@;
        let ghost to = c.to@;
        self.index.insert(c.to, c.rec);
        assert(rec_views(self.index@) =~= rec_views(before).insert(to, rv));
    }

    /// A copy failed: the error is kept under the file's name.
    pub fn copy_failed(&mut self, name: &str, err: &str)
        ensures
            final(self).summary@ == (
                old(self).summary@.0,
                old(self).summary@.1,
                old(self).summary@.2,
                old(self).summary@.3,
                old(self).summary@.4,
                old(self).summary@.5.push(copy_error(name@, err@)),
            ),
            final(self).index == old(self).index,
            final(self).healed == old(self).healed,
    {
        let msg = concat3(name, " : ", err);
        self.push_error(msg);
    }

    /// Was the date of the file with this fingerprint corrected?
    pub fn was_healed(&self, hash: &str) -> (r: bool)
        requires
            self.wf(),
        ensures
            r == self.healed@.contains_key(hash@),
    {
        self.healed.contains(hash)
    }

    /// Ends the run: its summary, the records of the index to save, one per
    /// path of the index, and for each record the corrected date of its
    /// file, when its date was corrected.
    pub fn finish(self) -> (r: (Summary, Vec<IndexRecord>, Vec<Option<Stamp>>))
        requires
            self.wf(),
        ensures
            r.0@ == self.summary@,
            r.2.len() == r.1.len(),
            forall|i: int| 0 <= i < r.2.len() ==> #[trigger] r.2@[i] == (if self.healed@.contains_key(r.1@[i].hash@) {
                Some(self.index_view()[r.1@[i].rel@].0)
            } else {
                None
            }),
            forall|i: int| 0 <= i < r.1.len() ==> {
                let rec = #[trigger] r.1@[i]@;
                &&& self.index_view().contains_key(rec.0)
                &&& rec == (
                    rec.0,
                    utc_millis(self.index_view()[rec.0].0),
                    self.index_view()[rec.0].1,
                    self.index_view()[rec.0].2,
                    self.index_view()[rec.0].3,
                )
            },
            forall|i: int, j: int| 0 <= i < j < r.1.len() ==> r.1@[i]@.0 != r.1@[j]@.0,
            forall|k: Seq<char>| #[trigger] self.index_view().contains_key(k) ==> exists|i: int| 0 <= i < r.1.len() && #[trigger] r.1@[i]@.0 == k,
    {
        let ghost view = self.index_view();
        let ghost raw = self.index@;
        let entries = self.index.into_entries();
        proof {
            assert forall|i: int| 0 <= i < entries.len() implies (#[trigger] entries@[i]).1.ts.wf() by {
                assert(raw.contains_key(entries@[i].0@));
                assert(view[entries@[i].0@] == raw[entries@[i].0@]@);
            }
        }
        let records = records_of(&entries);
        proof {
            assert forall|i: int| 0 <= i < records.len() implies {
                let rec = #[trigger] records@[i]@;
                &&& view.contains_key(rec.0)
                &&& rec == (rec.0, utc_millis(view[rec.0].0), view[rec.0].1, view[rec.0].2, view[rec.0].3)
            } by {
                assert(raw.contains_key(entries@[i].0@));
                assert(view[entries@[i].0@] == raw[entries@[i].0@]@);
                assert(records@[i]@ == (entries@[i].0@, utc_millis(entries@[i].1.ts), entries@[i].1.size, entries@[i].1.hash@, entries@[i].1.original@));
            }
            assert forall|j: int| 0 <= j < entries.len() implies #[trigger] view[entries@[j].0@] == entries@[j].1@ by {
                assert(raw.contains_key(entries@[j].0@));
            }
            assert forall|j: int| 0 <= j < records.len() implies #[trigger] records@[j]@.0 == entries@[j].0@ && records@[j].hash@ == entries@[j].1.hash@ by {
                assert(records@[j]@ == (entries@[j].0@, utc_millis(entries@[j].1.ts), entries@[j].1.size, entries@[j].1.hash@, entries@[j].1.original@));
            }
            assert forall|i: int, j: int| 0 <= i < j < records.len() implies records@[i]@.0 != records@[j]@.0 by {
                assert(records@[i]@.0 == entries@[i].0@);
                assert(records@[j]@.0 == entries@[j].0@);
            }
        }
        let mut flags: Vec<Option<Stamp>> = Vec::new();
        let mut i: usize = 0;
        while i < records.len()
            invariant
                self.healed.wf(),
                i <= records.len(),
                records.len() == entries.len(),
                forall|j: int| 0 <= j < records.len() ==> #[trigger] records@[j]@.0 == entries@[j].0@ && records@[j].hash@ == entries@[j].1.hash@,
                forall|j: int| 0 <= j < entries.len() ==> #[trigger] view[entries@[j].0@] == entries@[j].1@,
                flags.len() == i,
                forall|j: int| 0 <= j < i ==> #[trigger] flags@[j] == (if self.healed@.contains_key(records@[j].hash@) {
                    Some(view[records@[j].rel@].0)
                } else {
                    None
                }),
            decreases records.len() - i,
        {
            let f = if self.healed.contains(records[i].hash.as_str()) {
                Some(entries[i].1.ts)
            } else {
                None
            };
            assert(records@[i as int]@.0 == entries@[i as int].0@);
            flags.push(f);
            i = i + 1;
        }
        let r = (self.summary, records, flags);
        proof {
            assert forall|k: Seq<char>| #[trigger] view.contains_key(k) implies exists|i: int| 0 <= i < r.1.len() && #[trigger] r.1@[i]@.0 == k by {
                assert(raw.contains_key(k));
                let i = choose|i: int| 0 <= i < entries.len() && #[trigger] entries@[i].0@ == k;
                assert(r.1@[i]@.0 == entries@[i].0@);
            }
        }
        r
    }
}

} // verus!
