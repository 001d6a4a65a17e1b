//! What holds of every run, whatever the index, the batch and the format.
use vstd::prelude::*;
use crate::dedup::{
    known_before, known_after, is_dup, entry_key, rec_key, fresh_after, uncertain_after,
    dups_after,
};
use crate::library::{IndexEntry, NewEntry, TsSource};
use crate::naming::NameFormat;
use crate::order::{goes_before, key_lt, lemma_msort, msort, no_repeat, positions, sorted_by};
use crate::plan::{
    ItemV, Origin, day_number, given, item_keys, lemma_given, run_items, run_order, same_day,
    slot_target,
};
use crate::stamp::{Stamp, stamp_le, stamp_lt};

verus! {

/// The numbering order takes every item of a run exactly once, in the
/// order of date and time, then original name, then fingerprint (items
/// with equal keys keep the order in which they came).
pub proof fn law_numbering_order(idx: Seq<IndexEntry>, an: Seq<NewEntry>)
    requires
        idx.len() + an.len() <= usize::MAX,
    ensures
        run_order(idx, an).len() == run_items(idx, an).len(),
        forall|i: int| 0 <= i < run_order(idx, an).len() ==> #[trigger] run_order(idx, an)[i] < run_items(idx, an).len(),
        no_repeat(run_order(idx, an)),
        sorted_by(item_keys(run_items(idx, an)), run_order(idx, an)),
{
    let its = run_items(idx, an);
    let n = its.len();
    lemma_run_items_len(idx, an);
    let ps = positions(n);
    lemma_msort(ps, item_keys(its));
    let order = run_order(idx, an);
    assert forall|i: int| 0 <= i < order.len() implies #[trigger] order[i] < n by {
        assert(order.contains(order[i]));
        assert(ps.contains(order[i]));
        let j = choose|j: int| 0 <= j < ps.len() && ps[j] == order[i];
        assert(ps[j] == j as usize);
        assert((j as usize) as int == j);
    }
    assert forall|i: int, j: int| 0 <= i < j < ps.len() implies #[trigger] ps[i] != #[trigger] ps[j] by {
        assert(ps[i] == i as usize && ps[j] == j as usize);
        assert((i as usize) as int == i && (j as usize) as int == j);
    }
}

/// A run has no more items than the index and the batch together.
pub proof fn lemma_run_items_len(idx: Seq<IndexEntry>, an: Seq<NewEntry>)
    ensures
        run_items(idx, an).len() <= idx.len() + an.len(),
{
    let n = an.len();
    lemma_existing_len(idx, crate::dedup::dates_after(idx, an, n), crate::dedup::healed_after(idx, an, n), idx.len());
    crate::dedup::lemma_kept_in_range(idx, an, n);
}

proof fn lemma_existing_len(idx: Seq<IndexEntry>, dates: Seq<Stamp>, healed: Set<Seq<char>>, k: nat)
    ensures
        crate::plan::existing_items(idx, dates, healed, k).len() <= k,
    decreases k,
{
    if k > 0 {
        lemma_existing_len(idx, dates, healed, (k - 1) as nat);
    }
}

/// Within a day, dates only go forward and so do the numbers: the `i`-th
/// and `j`-th items taken in order, on the same day, are `j - i` apart, and
/// every item between them is on that day too.
pub proof fn law_numbers_within_a_day(idx: Seq<IndexEntry>, an: Seq<NewEntry>, i: int, j: int)
    requires
        idx.len() + an.len() <= usize::MAX,
        0 <= i <= j < run_order(idx, an).len(),
        same_day(
            run_items(idx, an)[run_order(idx, an)[i] as int].0.0,
            run_items(idx, an)[run_order(idx, an)[j] as int].0.0,
        ),
    ensures
        day_number(run_items(idx, an), run_order(idx, an), j) == day_number(run_items(idx, an), run_order(idx, an), i) + (j - i),
        stamp_le(
            run_items(idx, an)[run_order(idx, an)[i] as int].0.0,
            run_items(idx, an)[run_order(idx, an)[j] as int].0.0,
        ),
    decreases j - i,
{
    let its = run_items(idx, an);
    let order = run_order(idx, an);
    law_numbering_order(idx, an);
    let ts = |k: int| its[order[k] as int].0.0;
    if i < j {
        lemma_sorted_stamps(its, order, i, j - 1);
        lemma_sorted_stamps(its, order, j - 1, j);
        let (a, b, c) = (ts(i), ts(j - 1), ts(j));
        assert(same_day(a, b) && same_day(b, c));
        law_numbers_within_a_day(idx, an, i, j - 1);
    }
    lemma_sorted_stamps(its, order, i, j);
}

/// The first file of a day taken in order is number 1; each next file of
/// the same day is the next number.
pub proof fn law_day_numbers_start_at_one(its: Seq<ItemV>, order: Seq<usize>, k: int)
    requires
        0 <= k,
    ensures
        (k == 0 || !same_day(its[order[k - 1] as int].0.0, its[order[k] as int].0.0)) ==> day_number(its, order, k) == 1,
        (k > 0 && same_day(its[order[k - 1] as int].0.0, its[order[k] as int].0.0)) ==> day_number(its, order, k) == day_number(its, order, k - 1) + 1,
{
}

/// In a sorted order, dates only go forward.
proof fn lemma_sorted_stamps(its: Seq<ItemV>, order: Seq<usize>, i: int, j: int)
    requires
        0 <= i <= j < order.len(),
        sorted_by(item_keys(its), order),
        forall|k: int| 0 <= k < order.len() ==> #[trigger] order[k] < its.len(),
    ensures
        stamp_le(its[order[i] as int].0.0, its[order[j] as int].0.0),
{
    if i < j {
        let keys = item_keys(its);
        assert(goes_before(keys, order[i], order[j]));
        assert(keys[order[i] as int] == crate::plan::item_key(its[order[i] as int]));
        assert(keys[order[j] as int] == crate::plan::item_key(its[order[j] as int]));
    }
}

/// Every item of a run gets a path of its own.
pub proof fn law_paths_distinct(its: Seq<ItemV>, order: Seq<usize>, fmt: NameFormat, i: nat, j: nat)
    requires
        i != j,
    ensures
        slot_target(its, order, fmt, i) != slot_target(its, order, fmt, j),
{
    let k = if i < j { j } else { i };
    let m = if i < j { i } else { j };
    lemma_given(its, order, fmt, k);
    assert(given(its, order, fmt, k).contains(slot_target(its, order, fmt, m)));
    lemma_given(its, order, fmt, (k + 1) as nat);
    lemma_given_step(its, order, fmt, k);
}

proof fn lemma_given_step(its: Seq<ItemV>, order: Seq<usize>, fmt: NameFormat, k: nat)
    ensures
        !given(its, order, fmt, k).contains(slot_target(its, order, fmt, k)),
{
    lemma_given(its, order, fmt, k);
    let it = its[order[k as int] as int];
    crate::place::lemma_pick_is_free(it.0.0, day_number(its, order, k as int), it.1, fmt, given(its, order, fmt, k));
}

// ---------- the triage folder ----------

proof fn lemma_planned_has(an: Seq<NewEntry>, unc: Seq<usize>, base: Map<Seq<char>, crate::library::RecView>, on_disk: Set<Seq<char>>, i: nat, k: nat)
    requires
        i < k,
    ensures
        crate::plan::planned_review(an, unc, base, on_disk, k).contains(crate::plan::review_target(an, unc, base, on_disk, i)),
    decreases k,
{
    if i < k - 1 {
        lemma_planned_has(an, unc, base, on_disk, i, (k - 1) as nat);
    }
}

/// Files sent to the triage folder in a run get paths of their own, none
/// of which the index holds or is present on disk.
pub proof fn law_triage_paths(
    an: Seq<NewEntry>,
    unc: Seq<usize>,
    base: Map<Seq<char>, crate::library::RecView>,
    on_disk: Set<Seq<char>>,
    i: nat,
    j: nat,
)
    requires
        base.dom().finite(),
        on_disk.finite(),
    ensures
        !base.contains_key(crate::plan::review_target(an, unc, base, on_disk, j)),
        !on_disk.contains(crate::plan::review_target(an, unc, base, on_disk, j)),
        i < j ==> crate::plan::review_target(an, unc, base, on_disk, i) != crate::plan::review_target(an, unc, base, on_disk, j),
{
    let planned = crate::plan::planned_review(an, unc, base, on_disk, j);
    crate::plan::lemma_planned_review(an, unc, base, on_disk, j);
    let blocked = crate::triage::blocked_by(base, planned, on_disk);
    crate::triage::lemma_review_pick_is_free(an[unc[j as int] as int].name@, blocked);
    if i < j {
        lemma_planned_has(an, unc, base, on_disk, i, j);
    }
}

// ---------- duplicates ----------

proof fn lemma_known_before_has(idx: Seq<IndexEntry>, p: int)
    requires
        0 <= p < idx.len(),
    ensures
        known_before(idx).contains_key(rec_key(idx[p])),
    decreases idx.len(),
{
    if p < idx.len() - 1 {
        lemma_known_before_has(idx.drop_last(), p);
        assert(idx.drop_last()[p] == idx[p]);
    }
}

proof fn lemma_known_after_grows(idx: Seq<IndexEntry>, an: Seq<NewEntry>, k1: nat, k2: nat)
    requires
        k1 <= k2,
    ensures
        known_after(idx, an, k1).dom().subset_of(known_after(idx, an, k2).dom()),
    decreases k2,
{
    if k1 < k2 {
        lemma_known_after_grows(idx, an, k1, (k2 - 1) as nat);
    }
}

/// A new file is a duplicate when its size and fingerprint are those of a
/// file of the index or of an earlier file of the batch: the files kept
/// have sizes and fingerprints of their own, none of them the index's.
pub proof fn law_kept_files_distinct(idx: Seq<IndexEntry>, an: Seq<NewEntry>, f1: nat, f2: nat, p: int)
    requires
        f2 < an.len(),
        !is_dup(idx, an, f2),
    ensures
        0 <= p < idx.len() ==> rec_key(idx[p]) != entry_key(an[f2 as int]),
        f1 < f2 && !is_dup(idx, an, f1) ==> entry_key(an[f1 as int]) != entry_key(an[f2 as int]),
{
    lemma_known_after_grows(idx, an, 0, f2);
    if 0 <= p < idx.len() {
        lemma_known_before_has(idx, p);
    }
    if f1 < f2 {
        lemma_known_after_grows(idx, an, f1 + 1, f2);
        assert(known_after(idx, an, f1 + 1).contains_key(entry_key(an[f1 as int])));
    }
}

/// The index holds a file with this size and fingerprint.
pub open spec fn held(idx: Seq<IndexEntry>, key: (u64, Seq<char>)) -> bool {
    exists|p: int| 0 <= p < idx.len() && rec_key(#[trigger] idx[p]) == key
}

proof fn lemma_all_dup(idx: Seq<IndexEntry>, an: Seq<NewEntry>, k: nat)
    requires
        k <= an.len(),
        forall|f: int| 0 <= f < an.len() ==> held(idx, entry_key(#[trigger] an[f])),
    ensures
        fresh_after(idx, an, k).len() == 0,
        uncertain_after(idx, an, k).len() == 0,
        dups_after(idx, an, k) == k,
    decreases k,
{
    if k > 0 {
        lemma_all_dup(idx, an, (k - 1) as nat);
        let f = k - 1;
        assert(held(idx, entry_key(an[f])));
        let p = choose|p: int| 0 <= p < idx.len() && rec_key(#[trigger] idx[p]) == entry_key(an[f]);
        lemma_known_before_has(idx, p);
        lemma_known_after_grows(idx, an, 0, (k - 1) as nat);
        assert(is_dup(idx, an, (k - 1) as nat));
    }
}

proof fn lemma_no_new_copies(an: Seq<NewEntry>, its: Seq<ItemV>, order: Seq<usize>, fmt: NameFormat, k: nat)
    requires
        k <= order.len(),
        forall|i: int| 0 <= i < order.len() ==> #[trigger] order[i] < its.len(),
        forall|i: int| 0 <= i < its.len() ==> (#[trigger] its[i]).2 is Existing,
    ensures
        crate::plan::copies_of(an, its, order, fmt, k).len() == 0,
    decreases k,
{
    if k > 0 {
        lemma_no_new_copies(an, its, order, fmt, (k - 1) as nat);
        assert(its[order[k - 1] as int].2 is Existing);
    }
}

proof fn lemma_existing_origins(idx: Seq<IndexEntry>, dates: Seq<Stamp>, healed: Set<Seq<char>>, k: nat)
    ensures
        forall|i: int| 0 <= i < crate::plan::existing_items(idx, dates, healed, k).len() ==> (#[trigger] crate::plan::existing_items(idx, dates, healed, k)[i]).2 is Existing,
    decreases k,
{
    if k > 0 {
        lemma_existing_origins(idx, dates, healed, (k - 1) as nat);
        let prev = crate::plan::existing_items(idx, dates, healed, (k - 1) as nat);
        let cur = crate::plan::existing_items(idx, dates, healed, k);
        assert forall|i: int| 0 <= i < cur.len() implies (#[trigger] cur[i]).2 is Existing by {
            if i < prev.len() {
                assert(cur[i] == prev[i]);
            }
        }
    }
}

/// Dropping again files that the library already holds imports nothing:
/// every one of them is counted as a duplicate, and nothing is copied.
pub proof fn law_nothing_imported_twice(idx: Seq<IndexEntry>, an: Seq<NewEntry>, fmt: NameFormat, on_disk: Set<Seq<char>>)
    requires
        idx.len() + an.len() <= usize::MAX,
        forall|f: int| 0 <= f < an.len() ==> held(idx, entry_key(#[trigger] an[f])),
    ensures
        crate::plan::planned(idx, an, fmt, on_disk).1.len() == 0,
        crate::plan::planned(idx, an, fmt, on_disk).4 == an.len(),
{
    let n = an.len();
    lemma_all_dup(idx, an, n);
    law_numbering_order(idx, an);
    let its = run_items(idx, an);
    let existing = crate::plan::existing_items(idx, crate::dedup::dates_after(idx, an, n), crate::dedup::healed_after(idx, an, n), idx.len());
    lemma_existing_origins(idx, crate::dedup::dates_after(idx, an, n), crate::dedup::healed_after(idx, an, n), idx.len());
    assert(crate::plan::fresh_items(an, fresh_after(idx, an, n)).len() == 0);
    assert(its =~= existing);
    let order = run_order(idx, an);
    lemma_no_new_copies(an, its, order, fmt, order.len());
}

// ---------- names without a final dot ----------

proof fn lemma_trimmed_end(s: Seq<char>, spaces_too: bool)
    ensures
        crate::text::trim_end_marks(s, spaces_too).len() == 0 || !crate::text::end_mark(crate::text::trim_end_marks(s, spaces_too).last(), spaces_too),
    decreases s.len(),
{
    if s.len() > 0 && crate::text::end_mark(s.last(), spaces_too) {
        lemma_trimmed_end(s.drop_last(), spaces_too);
    }
}

/// A folder of the library never ends with a dot (`avr.` gives `avr`), and
/// is never empty.
pub proof fn law_folders_without_final_dot(ts: Stamp, fmt: NameFormat, dossiers: Seq<String>, n: nat)
    ensures
        forall|i: int| 0 <= i < crate::naming::dir_pieces(ts, fmt, dossiers, n).len() ==> {
            let p = #[trigger] crate::naming::dir_pieces(ts, fmt, dossiers, n)[i];
            p.len() > 0 && p.last() != '.'
        },
    decreases dossiers.len(),
{
    if dossiers.len() > 0 {
        law_folders_without_final_dot(ts, fmt, dossiers.drop_last(), n);
        let rest = crate::naming::dir_pieces(ts, fmt, dossiers.drop_last(), n);
        let cur = crate::naming::dir_pieces(ts, fmt, dossiers, n);
        match crate::naming::piece(ts, dossiers.last()@, fmt, n) {
            Some(p) => lemma_trimmed_end(p, false),
            None => {},
        }
        assert forall|i: int| 0 <= i < cur.len() implies {
            let p = #[trigger] cur[i];
            p.len() > 0 && p.last() != '.'
        } by {
            if i < rest.len() {
                assert(cur[i] == rest[i]);
            }
        }
    }
}

/// Before the extension, a file name never ends with a dot or a space
/// (`10 avr.` with `.jpg` gives `10 avr.jpg`).
pub proof fn law_name_without_final_dot(ts: Stamp, n: nat, ext: Seq<char>, fmt: NameFormat, force: bool)
    ensures
        ({
            let stem = crate::text::trim_end_marks(crate::naming::join(crate::naming::nom_pieces(ts, n, fmt, force), fmt.sep()), true);
            &&& crate::naming::file_name_for(ts, n, ext, fmt, force) == stem + seq!['.'] + ext
            &&& (stem.len() == 0 || (stem.last() != '.' && stem.last() != ' '))
        }),
{
    lemma_trimmed_end(crate::naming::join(crate::naming::nom_pieces(ts, n, fmt, force), fmt.sep()), true);
}

// ---------- corrected dates ----------

proof fn lemma_dates_len(idx: Seq<IndexEntry>, an: Seq<NewEntry>, k: nat)
    ensures
        crate::dedup::dates_after(idx, an, k).len() == idx.len(),
    decreases k,
{
    if k > 0 {
        lemma_dates_len(idx, an, (k - 1) as nat);
        let d = crate::dedup::dates_after(idx, an, (k - 1) as nat);
        match crate::dedup::heals(idx, an, (k - 1) as nat) {
            Some(p) => {
                assert(p < idx.len());
                assert(crate::dedup::dates_after(idx, an, k) == d.update(p as int, an[k - 1].ts));
            },
            None => {
                assert(crate::dedup::dates_after(idx, an, k) == d);
            },
        }
    }
}

proof fn lemma_existing_has(idx: Seq<IndexEntry>, dates: Seq<Stamp>, healed: Set<Seq<char>>, k: nat, p: int)
    requires
        0 <= p < k,
        !crate::plan::stays(idx[p].rel@, idx[p].rec.hash@, healed),
    ensures
        exists|i: int| 0 <= i < crate::plan::existing_items(idx, dates, healed, k).len()
            && #[trigger] crate::plan::existing_items(idx, dates, healed, k)[i] == (crate::plan::rec_of_entry(idx, dates, p), crate::media::ext_of(idx[p].rel@), Origin::Existing(p as usize)),
    decreases k,
{
    let cur = crate::plan::existing_items(idx, dates, healed, k);
    if p < k - 1 {
        lemma_existing_has(idx, dates, healed, (k - 1) as nat, p);
        let prev = crate::plan::existing_items(idx, dates, healed, (k - 1) as nat);
        let i = choose|i: int| 0 <= i < prev.len()
            && #[trigger] prev[i] == (crate::plan::rec_of_entry(idx, dates, p), crate::media::ext_of(idx[p].rel@), Origin::Existing(p as usize));
        assert(cur[i] == prev[i]);
    } else {
        let prev = crate::plan::existing_items(idx, dates, healed, (k - 1) as nat);
        assert(cur[prev.len() as int] == (crate::plan::rec_of_entry(idx, dates, p), crate::media::ext_of(idx[p].rel@), Origin::Existing(p as usize)));
    }
}

/// When a duplicate brings a reliable date that differs from the one
/// recorded for the filed file, the recorded date becomes that date, and
/// the file is numbered again with it (leaving the triage folder if it was
/// there).
pub proof fn law_corrected_date(idx: Seq<IndexEntry>, an: Seq<NewEntry>, k: nat, p: usize)
    requires
        k < an.len(),
        crate::dedup::heals(idx, an, k) == Some(p),
    ensures
        crate::dedup::dates_after(idx, an, k + 1)[p as int] == an[k as int].ts,
        crate::dedup::healed_after(idx, an, k + 1).contains(an[k as int].hash@),
        ({
            let n = an.len();
            let healed = crate::dedup::healed_after(idx, an, n);
            let dates = crate::dedup::dates_after(idx, an, n);
            crate::dedup::healed_after(idx, an, n).contains(idx[p as int].rec.hash@) ==> exists|i: int| 0 <= i < run_items(idx, an).len()
                && #[trigger] run_items(idx, an)[i] == (crate::plan::rec_of_entry(idx, dates, p as int), crate::media::ext_of(idx[p as int].rel@), Origin::Existing(p))
        }),
{
    let n = an.len();
    let healed = crate::dedup::healed_after(idx, an, n);
    let dates = crate::dedup::dates_after(idx, an, n);
    assert(p < idx.len());
    lemma_dates_len(idx, an, k);
    assert(crate::dedup::dates_after(idx, an, k + 1) == crate::dedup::dates_after(idx, an, k).update(p as int, an[k as int].ts));
    if healed.contains(idx[p as int].rec.hash@) {
        lemma_existing_has(idx, dates, healed, idx.len(), p as int);
        let ex = crate::plan::existing_items(idx, dates, healed, idx.len());
        let i = choose|i: int| 0 <= i < ex.len()
            && #[trigger] ex[i] == (crate::plan::rec_of_entry(idx, dates, p as int), crate::media::ext_of(idx[p as int].rel@), Origin::Existing(p));
        assert(run_items(idx, an)[i] == ex[i]);
    }
}

// ---------- copies are new files ----------

/// The size and fingerprint of what a copy brings.
pub open spec fn copy_key(c: crate::plan::CopyV) -> (u64, Seq<char>) {
    (c.2.1, c.2.2)
}

/// Positions of kept files, in increasing order, each kept for a reason.
pub open spec fn kept_list(idx: Seq<IndexEntry>, an: Seq<NewEntry>, s: Seq<usize>, k: nat, reliable: bool) -> bool {
    &&& forall|i: int| 0 <= i < s.len() ==> #[trigger] s[i] < k
    &&& forall|i: int, j: int| 0 <= i < j < s.len() ==> #[trigger] s[i] < #[trigger] s[j]
    &&& forall|i: int| 0 <= i < s.len() ==> !is_dup(idx, an, #[trigger] s[i] as nat)
    &&& forall|i: int| 0 <= i < s.len() ==> (an[#[trigger] s[i] as int].source != TsSource::FsDate) == reliable
}

proof fn lemma_kept_lists(idx: Seq<IndexEntry>, an: Seq<NewEntry>, k: nat)
    requires
        k <= an.len(),
        an.len() <= usize::MAX,
    ensures
        kept_list(idx, an, fresh_after(idx, an, k), k, true),
        kept_list(idx, an, uncertain_after(idx, an, k), k, false),
    decreases k,
{
    if k > 0 {
        lemma_kept_lists(idx, an, (k - 1) as nat);
        let f0 = fresh_after(idx, an, (k - 1) as nat);
        let f1 = fresh_after(idx, an, k);
        let u0 = uncertain_after(idx, an, (k - 1) as nat);
        let u1 = uncertain_after(idx, an, k);
        assert(((k - 1) as usize) as nat == k - 1);
        assert forall|i: int| 0 <= i < f1.len() implies #[trigger] f1[i] < k by {
            if i < f0.len() {
                assert(f1[i] == f0[i]);
            }
        }
        assert forall|i: int, j: int| 0 <= i < j < f1.len() implies #[trigger] f1[i] < #[trigger] f1[j] by {
            if j < f0.len() {
                assert(f1[i] == f0[i] && f1[j] == f0[j]);
            } else {
                assert(f1[i] == f0[i]);
            }
        }
        assert forall|i: int| 0 <= i < f1.len() implies !is_dup(idx, an, #[trigger] f1[i] as nat) by {
            if i < f0.len() {
                assert(f1[i] == f0[i]);
            }
        }
        assert forall|i: int| 0 <= i < f1.len() implies (an[#[trigger] f1[i] as int].source != TsSource::FsDate) == true by {
            if i < f0.len() {
                assert(f1[i] == f0[i]);
            }
        }
        assert forall|i: int| 0 <= i < u1.len() implies #[trigger] u1[i] < k by {
            if i < u0.len() {
                assert(u1[i] == u0[i]);
            }
        }
        assert forall|i: int, j: int| 0 <= i < j < u1.len() implies #[trigger] u1[i] < #[trigger] u1[j] by {
            if j < u0.len() {
                assert(u1[i] == u0[i] && u1[j] == u0[j]);
            } else {
                assert(u1[i] == u0[i]);
            }
        }
        assert forall|i: int| 0 <= i < u1.len() implies !is_dup(idx, an, #[trigger] u1[i] as nat) by {
            if i < u0.len() {
                assert(u1[i] == u0[i]);
            }
        }
        assert forall|i: int| 0 <= i < u1.len() implies (an[#[trigger] u1[i] as int].source != TsSource::FsDate) == false by {
            if i < u0.len() {
                assert(u1[i] == u0[i]);
            }
        }
    }
}

/// Copy `i` of the first `k` items comes from position `t` of the order: a
/// new item, and the `i + 1`-th copy made.
pub open spec fn copy_source(an: Seq<NewEntry>, its: Seq<ItemV>, order: Seq<usize>, fmt: NameFormat, k: nat, i: int, t: int) -> bool {
    &&& 0 <= t < k
    &&& its[order[t] as int].2 is New
    &&& crate::plan::copies_of(an, its, order, fmt, k)[i].2 == its[order[t] as int].0
    &&& crate::plan::copies_of(an, its, order, fmt, (t + 1) as nat).len() == i + 1
}

pub open spec fn has_source(an: Seq<NewEntry>, its: Seq<ItemV>, order: Seq<usize>, fmt: NameFormat, k: nat, i: int) -> bool {
    exists|t: int| #[trigger] copy_source(an, its, order, fmt, k, i, t)
}

/// Each copy of the numbered items comes from a new item, taken at a
/// position of the order.
proof fn lemma_copies_from(an: Seq<NewEntry>, its: Seq<ItemV>, order: Seq<usize>, fmt: NameFormat, k: nat)
    ensures
        forall|i: int| 0 <= i < crate::plan::copies_of(an, its, order, fmt, k).len() ==> #[trigger] has_source(an, its, order, fmt, k, i),
    decreases k,
{
    if k > 0 {
        lemma_copies_from(an, its, order, fmt, (k - 1) as nat);
        let c0 = crate::plan::copies_of(an, its, order, fmt, (k - 1) as nat);
        let c1 = crate::plan::copies_of(an, its, order, fmt, k);
        assert forall|i: int| 0 <= i < c1.len() implies #[trigger] has_source(an, its, order, fmt, k, i) by {
            if i < c0.len() {
                assert(has_source(an, its, order, fmt, (k - 1) as nat, i));
                let t = choose|t: int| #[trigger] copy_source(an, its, order, fmt, (k - 1) as nat, i, t);
                assert(c1[i] == c0[i]);
                assert(copy_source(an, its, order, fmt, k, i, t));
            } else {
                let t = k - 1;
                assert(copy_source(an, its, order, fmt, k, i, t));
            }
        }
    }
}

proof fn lemma_review_copy(an: Seq<NewEntry>, unc: Seq<usize>, base: Map<Seq<char>, crate::library::RecView>, on_disk: Set<Seq<char>>, k: nat, i: int)
    requires
        0 <= i < k,
    ensures
        crate::plan::review_copies(an, unc, base, on_disk, k).len() == k,
        crate::plan::review_copies(an, unc, base, on_disk, k)[i].2 == (an[unc[i] as int].ts, an[unc[i] as int].size, an[unc[i] as int].hash@, an[unc[i] as int].name@),
    decreases k,
{
    if i < k - 1 {
        lemma_review_copy(an, unc, base, on_disk, (k - 1) as nat, i);
    } else {
        lemma_review_len(an, unc, base, on_disk, (k - 1) as nat);
    }
}

proof fn lemma_review_len(an: Seq<NewEntry>, unc: Seq<usize>, base: Map<Seq<char>, crate::library::RecView>, on_disk: Set<Seq<char>>, k: nat)
    ensures
        crate::plan::review_copies(an, unc, base, on_disk, k).len() == k,
    decreases k,
{
    if k > 0 {
        lemma_review_len(an, unc, base, on_disk, (k - 1) as nat);
    }
}

/// The new file behind item `a` of a run, when it is one.
proof fn lemma_new_item_source(idx: Seq<IndexEntry>, an: Seq<NewEntry>, a: int)
    requires
        0 <= a < run_items(idx, an).len(),
        run_items(idx, an)[a].2 is New,
    ensures
        ({
            let n = an.len();
            let e = crate::plan::existing_items(idx, crate::dedup::dates_after(idx, an, n), crate::dedup::healed_after(idx, an, n), idx.len());
            let fr = fresh_after(idx, an, n);
            &&& e.len() <= a
            &&& a - e.len() < fr.len()
            &&& run_items(idx, an)[a] == crate::plan::new_item(an, fr[a - e.len()])
        }),
{
    let n = an.len();
    let dates = crate::dedup::dates_after(idx, an, n);
    let healed = crate::dedup::healed_after(idx, an, n);
    let e = crate::plan::existing_items(idx, dates, healed, idx.len());
    lemma_existing_origins(idx, dates, healed, idx.len());
    if a < e.len() {
        assert(run_items(idx, an)[a] == e[a]);
    }
}

/// A run never copies two files with the same size and fingerprint, nor a
/// file whose size and fingerprint are those of a file of the index.
pub proof fn law_copies_are_new(idx: Seq<IndexEntry>, an: Seq<NewEntry>, fmt: NameFormat, on_disk: Set<Seq<char>>, i: int, j: int, p: int)
    requires
        idx.len() + an.len() <= usize::MAX,
        0 <= i < crate::plan::planned(idx, an, fmt, on_disk).1.len(),
    ensures
        0 <= p < idx.len() ==> copy_key(crate::plan::planned(idx, an, fmt, on_disk).1[i]) != rec_key(idx[p]),
        i < j < crate::plan::planned(idx, an, fmt, on_disk).1.len() ==> copy_key(crate::plan::planned(idx, an, fmt, on_disk).1[i]) != copy_key(crate::plan::planned(idx, an, fmt, on_disk).1[j]),
{
    let n = an.len();
    let its = run_items(idx, an);
    let order = run_order(idx, an);
    let k = order.len();
    let unc = uncertain_after(idx, an, n);
    let fr = fresh_after(idx, an, n);
    let numbered = crate::plan::run_index(idx, an, fmt);
    let nc = crate::plan::copies_of(an, its, order, fmt, k);
    let rc = crate::plan::review_copies(an, unc, numbered, on_disk, unc.len());
    let cs = crate::plan::planned(idx, an, fmt, on_disk).1;
    assert(cs == nc + rc);
    law_numbering_order(idx, an);
    lemma_kept_lists(idx, an, n);
    lemma_copies_from(an, its, order, fmt, k);
    lemma_review_len(an, unc, numbered, on_disk, unc.len());
    let ex_len = crate::plan::existing_items(idx, crate::dedup::dates_after(idx, an, n), crate::dedup::healed_after(idx, an, n), idx.len()).len();
    // The new file behind copy `x`, with whether it is reliable.
    let src = |x: int| -> (usize, bool) {
        if x < nc.len() {
            let t = choose|t: int| #[trigger] copy_source(an, its, order, fmt, k, x, t);
            (fr[order[t] as int - ex_len], true)
        } else {
            (unc[x - nc.len()], false)
        }
    };
    assert forall|x: int| 0 <= x < cs.len() implies {
        let f = (#[trigger] src(x)).0;
        &&& f < n
        &&& !is_dup(idx, an, f as nat)
        &&& copy_key(cs[x]) == entry_key(an[f as int])
        &&& (an[f as int].source != TsSource::FsDate) == src(x).1
    } by {
        if x < nc.len() {
            assert(has_source(an, its, order, fmt, k, x));
            let t = choose|t: int| #[trigger] copy_source(an, its, order, fmt, k, x, t);
            lemma_new_item_source(idx, an, order[t] as int);
            assert(cs[x] == nc[x]);
        } else {
            let y = x - nc.len();
            lemma_review_copy(an, unc, numbered, on_disk, unc.len(), y);
            assert(cs[x] == rc[y]);
        }
    }
    let fi = src(i).0;
    law_kept_files_distinct(idx, an, 0, fi as nat, p);
    if i < j && j < cs.len() {
        let fj = src(j).0;
        if fi != fj {
            if fi < fj {
                law_kept_files_distinct(idx, an, fi as nat, fj as nat, -1);
            } else {
                law_kept_files_distinct(idx, an, fj as nat, fi as nat, -1);
            }
        } else {
            // The same new file behind two copies: impossible.
            if j < nc.len() {
                assert(has_source(an, its, order, fmt, k, i));
                assert(has_source(an, its, order, fmt, k, j));
                let ti = choose|t: int| #[trigger] copy_source(an, its, order, fmt, k, i, t);
                let tj = choose|t: int| #[trigger] copy_source(an, its, order, fmt, k, j, t);
                if ti == tj {
                    assert(false);
                } else {
                    assert(order[ti] != order[tj]);
                    lemma_new_item_source(idx, an, order[ti] as int);
                    lemma_new_item_source(idx, an, order[tj] as int);
                    let (a, b) = (order[ti] as int - ex_len, order[tj] as int - ex_len);
                    if a < b {
                        assert(fr[a] < fr[b]);
                    } else {
                        assert(fr[b] < fr[a]);
                    }
                }
            } else if i < nc.len() {
                assert(src(i).1 != src(j).1);
            } else {
                let (a, b) = (i - nc.len(), j - nc.len());
                assert(unc[a] < unc[b]);
            }
        }
    }
}

// ---------- what the format writes, it recognises ----------

/// A folder that the format writes for one of its folder tokens, once its
/// trailing dots are removed, is recognised as that token's folder (for a
/// four-digit year, and, for `motcle`, a keyword that does not end with a
/// dot).
pub proof fn law_written_folders_are_recognised(ts: Stamp, token: Seq<char>, fmt: NameFormat, n: nat)
    requires
        ts.wf(),
        1000 <= ts.year <= 9999,
        token == "annee"@ || token == "mois"@ || token == "jour"@ || token == "heure"@ || token
            == "motcle"@,
        token == "motcle"@ ==> fmt.keyword().len() > 0 && fmt.keyword().last() != '.',
    ensures
        crate::naming::piece(ts, token, fmt, n) matches Some(p) && crate::naming::segment_matches(
            crate::text::trim_end_marks(p, false),
            token,
            fmt,
        ),
{
    crate::layout::lemma_tokens_distinct();
    crate::layout::lemma_piece_recognised(ts, token, fmt, n);
}

/// Every path that the format writes for a file is recognised as following
/// that format: split at its slashes, it has one folder per folder token,
/// each recognised as that token's, then the file. This holds for a
/// four-digit year, folder tokens that the format knows, a keyword that is
/// not empty and does not end with a dot when `motcle` is a folder token,
/// and an extension without `/`. It is what lets a lost index be rebuilt
/// from the library's folders.
pub proof fn law_placed_paths_follow_structure(ts: Stamp, n: nat, ext: Seq<char>, fmt: NameFormat, force: bool)
    requires
        ts.wf(),
        1000 <= ts.year <= 9999,
        forall|i: int| 0 <= i < fmt.dossiers@.len() ==> crate::layout::known_folder_token(
            #[trigger] fmt.dossiers@[i]@,
        ),
        forall|i: int| 0 <= i < fmt.dossiers@.len() && #[trigger] fmt.dossiers@[i]@ == "motcle"@
            ==> fmt.keyword().len() > 0 && fmt.keyword().last() != '.',
        crate::layout::slash_free(ext),
    ensures
        crate::naming::follows_structure(
            crate::layout::segments(crate::naming::target(ts, n, ext, fmt, force)),
            fmt,
        ),
        crate::layout::segments(crate::naming::target(ts, n, ext, fmt, force)).last()
            == crate::naming::file_name_for(ts, n, ext, fmt, force),
{
    let dirs = crate::naming::dir_pieces(ts, fmt, fmt.dossiers@, n);
    let file = crate::naming::file_name_for(ts, n, ext, fmt, force);
    let parts = dirs.push(file);
    let toks = crate::naming::folder_tokens(fmt.dossiers@);
    crate::layout::lemma_dir_pieces_match(ts, fmt, fmt.dossiers@, n);
    crate::layout::lemma_file_name_slash_free(ts, n, ext, fmt, force);
    assert forall|i: int| 0 <= i < parts.len() implies crate::layout::slash_free(#[trigger] parts[i]) by {
        if i < dirs.len() {
            assert(parts[i] == dirs[i]);
        }
    }
    crate::layout::lemma_segments_join(parts);
    assert forall|i: int| 0 <= i < toks.len() implies crate::naming::segment_matches(
        parts[i],
        #[trigger] toks[i],
        fmt,
    ) by {
        assert(parts[i] == dirs[i]);
    }
}

/// Files of the same date and time are numbered in the order of their
/// original names (so that counters such as `WA0012`, `WA0013` keep their
/// order), and, under the same name too, in the order of their
/// fingerprints.
pub proof fn law_same_time_name_order(a: ItemV, b: ItemV)
    requires
        a.0.0 == b.0.0,
    ensures
        crate::plan::item_key(a) == (a.0.0, a.0.3, a.0.2),
        a.0.3 != b.0.3 ==> (key_lt(crate::plan::item_key(a), crate::plan::item_key(b))
            <==> crate::order::text_lt(a.0.3, b.0.3)),
        a.0.3 == b.0.3 ==> (key_lt(crate::plan::item_key(a), crate::plan::item_key(b))
            <==> crate::order::text_lt(a.0.2, b.0.2)),
{
}

/// Every file of a batch is accounted for by its run: its size and
/// fingerprint are those of a file of the index, or those of a file that
/// the run copies (numbered, or into the triage folder). So, once the
/// run's copies are in the index, the same files dropped again are all
/// duplicates (`law_nothing_imported_twice`).
pub proof fn law_every_file_accounted(idx: Seq<IndexEntry>, an: Seq<NewEntry>, fmt: NameFormat, on_disk: Set<Seq<char>>, f: nat)
    requires
        idx.len() + an.len() <= usize::MAX,
        f < an.len(),
    ensures
        held(idx, entry_key(an[f as int])) || crate::accounted::copied_key(
            crate::plan::planned(idx, an, fmt, on_disk).1,
            entry_key(an[f as int]),
        ),
{
    let key = entry_key(an[f as int]);
    if is_dup(idx, an, f) {
        crate::accounted::lemma_known_after_origin(idx, an, f, key);
        if crate::accounted::held_key(idx, key) {
            let p = choose|p: int| 0 <= p < idx.len() && rec_key(#[trigger] idx[p]) == key;
            assert(rec_key(idx[p]) == key);
        } else {
            let g = choose|g: nat| g < f && !is_dup(idx, an, g) && #[trigger] entry_key(an[g as int]) == key;
            crate::accounted::lemma_kept_copied(idx, an, fmt, on_disk, g);
        }
    } else {
        crate::accounted::lemma_kept_copied(idx, an, fmt, on_disk, f);
    }
}

/// Running the same batch twice: when the index after the first run still
/// holds the files that the index held before, and holds every file that
/// the first run copied (all copies went through), the second run copies
/// nothing and counts every file of the batch as a duplicate.
pub proof fn law_second_run_imports_nothing(
    idx: Seq<IndexEntry>,
    an: Seq<NewEntry>,
    fmt: NameFormat,
    on_disk: Set<Seq<char>>,
    idx2: Seq<IndexEntry>,
    on_disk2: Set<Seq<char>>,
)
    requires
        idx.len() + an.len() <= usize::MAX,
        idx2.len() + an.len() <= usize::MAX,
        forall|key: (u64, Seq<char>)| held(idx, key) ==> #[trigger] held(idx2, key),
        forall|key: (u64, Seq<char>)|
            crate::accounted::copied_key(crate::plan::planned(idx, an, fmt, on_disk).1, key)
                ==> #[trigger] held(idx2, key),
    ensures
        crate::plan::planned(idx2, an, fmt, on_disk2).1.len() == 0,
        crate::plan::planned(idx2, an, fmt, on_disk2).4 == an.len(),
{
    assert forall|f: int| 0 <= f < an.len() implies held(idx2, entry_key(#[trigger] an[f])) by {
        law_every_file_accounted(idx, an, fmt, on_disk, f as nat);
    }
    law_nothing_imported_twice(idx2, an, fmt, on_disk2);
}

/// What the fingerprint of a file of `size` bytes, whose content is
/// `bytes`, is computed from: its first chunk, and its last chunk when it
/// is longer than a chunk.
pub open spec fn fingerprint_input(bytes: Seq<u8>, size: u64) -> Seq<u8> {
    let h = crate::fingerprint::head_len(size) as int;
    crate::fingerprint::hashed(
        bytes.take(h),
        match crate::fingerprint::tail_at(size) {
            Some(o) => Some(bytes.subrange(o as int, o + crate::fingerprint::CHUNK)),
            None => None,
        },
        size,
    )
}

/// Two files of the same size whose bytes agree where the fingerprint
/// reads them (the first chunk, and the last chunk of a longer file) get
/// the same fingerprint, whatever lies in between.
pub proof fn law_fingerprint_reads_ends_only(p: Seq<u8>, q: Seq<u8>, size: u64)
    requires
        p.len() >= size,
        q.len() >= size,
        p.take(crate::fingerprint::head_len(size) as int) == q.take(crate::fingerprint::head_len(size) as int),
        size > crate::fingerprint::CHUNK ==> p.subrange(size - crate::fingerprint::CHUNK, size as int)
            == q.subrange(size - crate::fingerprint::CHUNK, size as int),
    ensures
        fingerprint_input(p, size) == fingerprint_input(q, size),
        crate::fingerprint::hex(crate::fingerprint::sha1(fingerprint_input(p, size)))
            == crate::fingerprint::hex(crate::fingerprint::sha1(fingerprint_input(q, size))),
{
}

/// The index repairs itself: a photo or video that the format placed in
/// the library, and that the index no longer holds, is adopted back when
/// the library is scanned (under the same conditions as
/// `law_placed_paths_follow_structure`).
pub proof fn law_placed_files_are_adopted(
    ts: Stamp,
    n: nat,
    ext: Seq<char>,
    fmt: NameFormat,
    force: bool,
    idx: Seq<IndexEntry>,
)
    requires
        ts.wf(),
        1000 <= ts.year <= 9999,
        forall|i: int| 0 <= i < fmt.dossiers@.len() ==> crate::layout::known_folder_token(
            #[trigger] fmt.dossiers@[i]@,
        ),
        forall|i: int| 0 <= i < fmt.dossiers@.len() && #[trigger] fmt.dossiers@[i]@ == "motcle"@
            ==> fmt.keyword().len() > 0 && fmt.keyword().last() != '.',
        crate::layout::slash_free(ext),
    ensures
        ({
            let comps = crate::layout::segments(crate::naming::target(ts, n, ext, fmt, force));
            crate::adopt::library_adoptable(comps, idx, fmt) <==> (crate::media::is_media_ext(
                crate::media::ext_of(crate::naming::file_name_for(ts, n, ext, fmt, force)),
            ) && !crate::library::index_has(idx, crate::adopt::rel_of(comps)))
        }),
{
    law_placed_paths_follow_structure(ts, n, ext, fmt, force);
}

// ---------- dates read in Exif data ----------

/// The date that one Exif field gives: that of the first string of its
/// value, when it is a plausible date.
pub open spec fn exif_field_date(tiff: Seq<u8>, tag: crate::exifdate::DateTag) -> Option<Stamp> {
    match crate::exifdate::first_string(crate::exifdate::exif_ascii_strings(tiff, tag)) {
        Some(d) => crate::exifdate::stamp_of_exif_text(d),
        None => None,
    }
}

/// The date of the shot comes first: when `DateTimeOriginal` gives a date,
/// the Exif date is that one, whatever the other fields hold; else the
/// date of digitisation (`DateTimeDigitized`); else that of the last
/// change (`DateTime`).
pub proof fn law_exif_shot_date_first(tiff: Seq<u8>)
    ensures
        ({
            let r = crate::exifdate::stamp_of_exif_fields(crate::exifdate::exif_fields_of(tiff));
            let o = exif_field_date(tiff, crate::exifdate::DateTag::Original);
            let g = exif_field_date(tiff, crate::exifdate::DateTag::Digitized);
            let c = exif_field_date(tiff, crate::exifdate::DateTag::Modified);
            &&& o is Some ==> r == o
            &&& o is None && g is Some ==> r == g
            &&& o is None && g is None ==> r == c
        }),
{
    let f = crate::exifdate::exif_fields_of(tiff);
    reveal_with_fuel(crate::exifdate::stamp_of_exif_fields, 4);
    assert(f.drop_first()[0] == f[1]);
    assert(f.drop_first().drop_first()[0] == f[2]);
    assert(f.drop_first().drop_first().drop_first().len() == 0);
}

// ---------- photos and videos ----------

/// The extensions of photos, of videos, and of the videos of the
/// MP4/QuickTime family (whose date the `mvhd` atom holds), as lists; a
/// file is handled (scanned and filed) when it is a photo or a video.
pub proof fn law_extension_lists(e: Seq<char>)
    ensures
        crate::media::is_image_ext(e) <==> seq![
            "jpg"@, "jpeg"@, "png"@, "heic"@, "heif"@, "webp"@, "gif"@, "tif"@, "tiff"@,
            "bmp"@, "dng"@, "cr2"@, "cr3"@, "nef"@, "arw"@, "orf"@, "rw2"@,
        ].contains(e),
        crate::media::is_video_ext(e) <==> seq![
            "mp4"@, "mov"@, "m4v"@, "3gp"@, "avi"@, "mkv"@, "webm"@, "mts"@, "m2ts"@,
        ].contains(e),
        crate::media::is_mp4_like_ext(e) <==> seq!["mp4"@, "mov"@, "m4v"@, "3gp"@].contains(e),
        crate::media::is_media_ext(e) <==> crate::media::is_image_ext(e) || crate::media::is_video_ext(e),
        crate::media::is_mp4_like_ext(e) ==> crate::media::is_video_ext(e) && !crate::media::is_image_ext(e),
{
    let imgs = seq![
        "jpg"@, "jpeg"@, "png"@, "heic"@, "heif"@, "webp"@, "gif"@, "tif"@, "tiff"@,
        "bmp"@, "dng"@, "cr2"@, "cr3"@, "nef"@, "arw"@, "orf"@, "rw2"@,
    ];
    let vids = seq!["mp4"@, "mov"@, "m4v"@, "3gp"@, "avi"@, "mkv"@, "webm"@, "mts"@, "m2ts"@];
    let mp4s = seq!["mp4"@, "mov"@, "m4v"@, "3gp"@];
    if crate::media::is_image_ext(e) {
        if e == "jpg"@ { assert(imgs[0] == e); }
        else if e == "jpeg"@ { assert(imgs[1] == e); }
        else if e == "png"@ { assert(imgs[2] == e); }
        else if e == "heic"@ { assert(imgs[3] == e); }
        else if e == "heif"@ { assert(imgs[4] == e); }
        else if e == "webp"@ { assert(imgs[5] == e); }
        else if e == "gif"@ { assert(imgs[6] == e); }
        else if e == "tif"@ { assert(imgs[7] == e); }
        else if e == "tiff"@ { assert(imgs[8] == e); }
        else if e == "bmp"@ { assert(imgs[9] == e); }
        else if e == "dng"@ { assert(imgs[10] == e); }
        else if e == "cr2"@ { assert(imgs[11] == e); }
        else if e == "cr3"@ { assert(imgs[12] == e); }
        else if e == "nef"@ { assert(imgs[13] == e); }
        else if e == "arw"@ { assert(imgs[14] == e); }
        else if e == "orf"@ { assert(imgs[15] == e); }
        else { assert(imgs[16] == e); }
    }
    if imgs.contains(e) {
        let i = choose|i: int| 0 <= i < imgs.len() && imgs[i] == e;
        assert(crate::media::is_image_ext(e));
    }
    if crate::media::is_video_ext(e) {
        if e == "mp4"@ { assert(vids[0] == e); }
        else if e == "mov"@ { assert(vids[1] == e); }
        else if e == "m4v"@ { assert(vids[2] == e); }
        else if e == "3gp"@ { assert(vids[3] == e); }
        else if e == "avi"@ { assert(vids[4] == e); }
        else if e == "mkv"@ { assert(vids[5] == e); }
        else if e == "webm"@ { assert(vids[6] == e); }
        else if e == "mts"@ { assert(vids[7] == e); }
        else { assert(vids[8] == e); }
    }
    if vids.contains(e) {
        let i = choose|i: int| 0 <= i < vids.len() && vids[i] == e;
        assert(crate::media::is_video_ext(e));
    }
    if crate::media::is_mp4_like_ext(e) {
        if e == "mp4"@ { assert(mp4s[0] == e); }
        else if e == "mov"@ { assert(mp4s[1] == e); }
        else if e == "m4v"@ { assert(mp4s[2] == e); }
        else { assert(mp4s[3] == e); }
        lemma_mp4_like_no_photo(e);
    }
    if mp4s.contains(e) {
        let i = choose|i: int| 0 <= i < mp4s.len() && mp4s[i] == e;
        assert(crate::media::is_mp4_like_ext(e));
    }
}

proof fn lemma_mp4_like_no_photo(e: Seq<char>)
    requires
        crate::media::is_mp4_like_ext(e),
    ensures
        !crate::media::is_image_ext(e),
{
    reveal_strlit("mp4");
    reveal_strlit("mov");
    reveal_strlit("m4v");
    reveal_strlit("3gp");
    reveal_strlit("jpg");
    reveal_strlit("jpeg");
    reveal_strlit("png");
    reveal_strlit("heic");
    reveal_strlit("heif");
    reveal_strlit("webp");
    reveal_strlit("gif");
    reveal_strlit("tif");
    reveal_strlit("tiff");
    reveal_strlit("bmp");
    reveal_strlit("dng");
    reveal_strlit("cr2");
    reveal_strlit("cr3");
    reveal_strlit("nef");
    reveal_strlit("arw");
    reveal_strlit("orf");
    reveal_strlit("rw2");
    if e.len() == 3 {
        assert(e[0] == 'm' || e[0] == '3');
    }
}

/// The date of a video of the MP4/QuickTime family (`mp4`, `mov`, `m4v`,
/// `3gp`): a date `m` read in its `mvhd` atom that is not more than a day
/// after the file's own date is the date chosen, from the metadata. A
/// photo's Exif date is always the date chosen.
pub proof fn law_metadata_date_chosen(ext: Seq<char>, name_ts: Option<Stamp>, m: Stamp, fs_ts: Stamp)
    ensures
        seq!["mp4"@, "mov"@, "m4v"@, "3gp"@].contains(ext) && stamp_le(m, fs_ts.one_day_later())
            ==> crate::timing::chosen_timestamp(ext, name_ts, Some(m), fs_ts) == (m, TsSource::Meta),
        seq![
            "jpg"@, "jpeg"@, "png"@, "heic"@, "heif"@, "webp"@, "gif"@, "tif"@, "tiff"@,
            "bmp"@, "dng"@, "cr2"@, "cr3"@, "nef"@, "arw"@, "orf"@, "rw2"@,
        ].contains(ext) ==> crate::timing::chosen_timestamp(ext, name_ts, Some(m), fs_ts) == (m, TsSource::Meta),
{
    law_extension_lists(ext);
}

/// Without a metadata date, the date in the name comes first, then the
/// file's own date.
pub proof fn law_name_then_file_date(ext: Seq<char>, t: Stamp, fs_ts: Stamp)
    ensures
        crate::timing::chosen_timestamp(ext, Some(t), None, fs_ts) == (t, TsSource::Name),
        crate::timing::chosen_timestamp(ext, None, None, fs_ts) == (fs_ts, TsSource::FsDate),
{
}

// ---------- month names ----------

/// Each month `m` is written with the `m`-th French month name (`juin` for
/// June), or its abbreviation (`juin` again, `juil.` for July).
pub proof fn law_french_month_names(m: int)
    requires
        1 <= m <= 12,
    ensures
        crate::naming::month_name(m) == seq![
            "janvier"@, "février"@, "mars"@, "avril"@, "mai"@, "juin"@, "juillet"@, "août"@,
            "septembre"@, "octobre"@, "novembre"@, "décembre"@,
        ][m - 1],
        crate::naming::month_abbrev(m) == seq![
            "janv."@, "févr."@, "mars"@, "avr."@, "mai"@, "juin"@, "juil."@, "août"@,
            "sept."@, "oct."@, "nov."@, "déc."@,
        ][m - 1],
{
}

/// The month piece of a path names the file's own month: in full (the
/// default style, `juin` for June), abbreviated (`avr`), or in digits
/// (`04`, `4`) that stand for the month's number.
pub proof fn law_month_piece_names_the_month(ts: Stamp, fmt: NameFormat, n: nat)
    requires
        ts.wf(),
    ensures
        ({
            let st = fmt.style_of("mois"@, "avril"@);
            let p = crate::naming::piece(ts, "mois"@, fmt, n);
            &&& st != "avr"@ && st != "04"@ && st != "4"@ ==> p == Some(seq![
                "janvier"@, "février"@, "mars"@, "avril"@, "mai"@, "juin"@, "juillet"@, "août"@,
                "septembre"@, "octobre"@, "novembre"@, "décembre"@,
            ][ts.month - 1])
            &&& st == "avr"@ ==> p == Some(seq![
                "janv."@, "févr."@, "mars"@, "avr."@, "mai"@, "juin"@, "juil."@, "août"@,
                "sept."@, "oct."@, "nov."@, "déc."@,
            ][ts.month - 1])
            &&& st == "04"@ ==> (p matches Some(d) && d.len() == 2 && crate::text::all_digits(d)
                && crate::text::digits_value(d) == ts.month)
            &&& st == "4"@ ==> (p matches Some(d) && crate::text::all_digits(d)
                && crate::text::digits_value(d) == ts.month)
        }),
{
    crate::layout::lemma_tokens_distinct();
    law_french_month_names(ts.month as int);
    crate::layout::lemma_dec2_digits(ts.month as nat);
    crate::text::lemma_dec_digits(ts.month as nat);
    reveal_strlit("avr");
    reveal_strlit("04");
    reveal_strlit("4");
    assert("avr"@.len() == 3 && "04"@.len() == 2 && "4"@.len() == 1);
    assert("04"@ != "avr"@ && "4"@ != "avr"@ && "4"@ != "04"@);
    let st = fmt.style_of("mois"@, "avril"@);
    if st == "04"@ {
        assert(crate::naming::piece(ts, "mois"@, fmt, n) == Some(crate::text::dec2(ts.month as nat)));
    } else if st == "4"@ {
        assert(crate::naming::piece(ts, "mois"@, fmt, n) == Some(crate::text::dec(ts.month as nat)));
    } else if st == "avr"@ {
        assert(crate::naming::piece(ts, "mois"@, fmt, n) == Some(crate::naming::month_abbrev(ts.month as int)));
    } else {
        assert(crate::naming::piece(ts, "mois"@, fmt, n) == Some(crate::naming::month_name(ts.month as int)));
    }
}

} // verus!
