//! Where each analysed file of a run goes: a duplicate of a file of the
//! index or of an earlier file of the batch, or a file that the run copies.
use vstd::prelude::*;
use crate::dedup::{
    known_before, known_after, is_dup, entry_key, rec_key, fresh_after, uncertain_after,
};
use crate::library::{IndexEntry, NewEntry, TsSource};
use crate::naming::NameFormat;
use crate::order::{lemma_msort, positions};
use crate::plan::{
    ItemV, Origin, CopyV, copies_of, review_copies, run_items, run_order, existing_items,
    fresh_items, new_item,
};
use crate::dedup::{dates_after, healed_after};

verus! {

/// The index holds a file with this size and fingerprint.
pub open spec fn held_key(idx: Seq<IndexEntry>, key: (u64, Seq<char>)) -> bool {
    exists|p: int| 0 <= p < idx.len() && rec_key(#[trigger] idx[p]) == key
}

/// Some copy of `copies` brings a file with this size and fingerprint.
pub open spec fn copied_key(copies: Seq<CopyV>, key: (u64, Seq<char>)) -> bool {
    exists|c: int| 0 <= c < copies.len() && ((#[trigger] copies[c]).2.1, copies[c].2.2) == key
}

proof fn lemma_known_before_held(idx: Seq<IndexEntry>, key: (u64, Seq<char>))
    requires
        known_before(idx).contains_key(key),
    ensures
        held_key(idx, key),
    decreases idx.len(),
{
    if idx.len() > 0 {
        let r = idx.drop_last();
        if rec_key(idx.last()) == key {
            assert(rec_key(idx[idx.len() - 1]) == key);
        } else {
            lemma_known_before_held(r, key);
            let p = choose|p: int| 0 <= p < r.len() && rec_key(#[trigger] r[p]) == key;
            assert(idx[p] == r[p]);
        }
    }
}

/// What is known after the first `k` new files comes from the index or
/// from one of these files that was no duplicate.
pub proof fn lemma_known_after_origin(idx: Seq<IndexEntry>, an: Seq<NewEntry>, k: nat, key: (u64, Seq<char>))
    requires
        k <= an.len(),
        known_after(idx, an, k).contains_key(key),
    ensures
        held_key(idx, key) || exists|g: nat| g < k && !is_dup(idx, an, g) && #[trigger] entry_key(an[g as int]) == key,
    decreases k,
{
    if k == 0 {
        lemma_known_before_held(idx, key);
    } else {
        let g = (k - 1) as nat;
        let m = known_after(idx, an, g);
        if m.contains_key(key) {
            lemma_known_after_origin(idx, an, g, key);
            if !held_key(idx, key) {
                let h = choose|h: nat| h < g && !is_dup(idx, an, h) && #[trigger] entry_key(an[h as int]) == key;
                assert(h < k);
            }
        } else {
            assert(entry_key(an[g as int]) == key);
            assert(!is_dup(idx, an, g));
        }
    }
}

/// A new file that is no duplicate is among the fresh files or the
/// uncertain ones.
pub proof fn lemma_kept_listed(idx: Seq<IndexEntry>, an: Seq<NewEntry>, k: nat, g: nat)
    requires
        g < k <= an.len(),
        !is_dup(idx, an, g),
    ensures
        an[g as int].source != TsSource::FsDate ==> fresh_after(idx, an, k).contains(g as usize),
        an[g as int].source == TsSource::FsDate ==> uncertain_after(idx, an, k).contains(g as usize),
    decreases k,
{
    let km = (k - 1) as nat;
    if g < km {
        lemma_kept_listed(idx, an, km, g);
        let f0 = fresh_after(idx, an, km);
        let u0 = uncertain_after(idx, an, km);
        if an[g as int].source != TsSource::FsDate {
            let i = choose|i: int| 0 <= i < f0.len() && f0[i] == g as usize;
            assert(fresh_after(idx, an, k)[i] == f0[i]);
        } else {
            let i = choose|i: int| 0 <= i < u0.len() && u0[i] == g as usize;
            assert(uncertain_after(idx, an, k)[i] == u0[i]);
        }
    } else {
        let f = fresh_after(idx, an, k);
        let u = uncertain_after(idx, an, k);
        if an[g as int].source != TsSource::FsDate {
            assert(f[f.len() - 1] == g as usize);
        } else {
            assert(u[u.len() - 1] == g as usize);
        }
    }
}

/// Each new item taken among the first `k` in order is copied, with what
/// the index records of it.
proof fn lemma_copied_item(an: Seq<NewEntry>, its: Seq<ItemV>, order: Seq<usize>, fmt: NameFormat, k: nat, j: nat)
    requires
        j < k <= order.len(),
        forall|i: int| 0 <= i < order.len() ==> #[trigger] order[i] < its.len(),
        its[order[j as int] as int].2 is New,
    ensures
        copied_key(copies_of(an, its, order, fmt, k), (its[order[j as int] as int].0.1, its[order[j as int] as int].0.2)),
    decreases k,
{
    let km = (k - 1) as nat;
    let s = copies_of(an, its, order, fmt, km);
    let cur = copies_of(an, its, order, fmt, k);
    let key = (its[order[j as int] as int].0.1, its[order[j as int] as int].0.2);
    if j < km {
        lemma_copied_item(an, its, order, fmt, km, j);
        let c = choose|c: int| 0 <= c < s.len() && ((#[trigger] s[c]).2.1, s[c].2.2) == key;
        assert(cur[c] == s[c]);
    } else {
        assert(cur[cur.len() - 1].2 == its[order[j as int] as int].0);
    }
}

proof fn lemma_review_copies_len(an: Seq<NewEntry>, unc: Seq<usize>, base: Map<Seq<char>, crate::library::RecView>, on_disk: Set<Seq<char>>, k: nat)
    ensures
        review_copies(an, unc, base, on_disk, k).len() == k,
    decreases k,
{
    if k > 0 {
        lemma_review_copies_len(an, unc, base, on_disk, (k - 1) as nat);
    }
}

proof fn lemma_review_copies(an: Seq<NewEntry>, unc: Seq<usize>, base: Map<Seq<char>, crate::library::RecView>, on_disk: Set<Seq<char>>, k: nat, i: int)
    requires
        0 <= i < k <= unc.len(),
    ensures
        review_copies(an, unc, base, on_disk, k).len() == k,
        review_copies(an, unc, base, on_disk, k)[i].2.1 == an[unc[i] as int].size,
        review_copies(an, unc, base, on_disk, k)[i].2.2 == an[unc[i] as int].hash@,
    decreases k,
{
    let km = (k - 1) as nat;
    lemma_review_copies_len(an, unc, base, on_disk, km);
    lemma_review_copies_len(an, unc, base, on_disk, k);
    if i < km {
        lemma_review_copies(an, unc, base, on_disk, km, i);
    }
}

/// Every new file that is no duplicate is copied by the run, with its size
/// and fingerprint.
pub proof fn lemma_kept_copied(idx: Seq<IndexEntry>, an: Seq<NewEntry>, fmt: NameFormat, on_disk: Set<Seq<char>>, g: nat)
    requires
        idx.len() + an.len() <= usize::MAX,
        g < an.len(),
        !is_dup(idx, an, g),
    ensures
        copied_key(crate::plan::planned(idx, an, fmt, on_disk).1, entry_key(an[g as int])),
{
    let n = an.len();
    let its = run_items(idx, an);
    let order = run_order(idx, an);
    let k = order.len();
    let unc = uncertain_after(idx, an, n);
    let numbered = crate::plan::run_index(idx, an, fmt);
    let first = copies_of(an, its, order, fmt, k);
    let second = review_copies(an, unc, numbered, on_disk, unc.len());
    let all = crate::plan::planned(idx, an, fmt, on_disk).1;
    assert(all == first + second);
    let key = entry_key(an[g as int]);
    crate::laws::law_numbering_order(idx, an);
    lemma_kept_listed(idx, an, n, g);
    if an[g as int].source != TsSource::FsDate {
        let fresh = fresh_after(idx, an, n);
        let i = choose|i: int| 0 <= i < fresh.len() && fresh[i] == g as usize;
        let existing = existing_items(idx, dates_after(idx, an, n), healed_after(idx, an, n), idx.len());
        let q = existing.len() + i;
        assert(its == existing + fresh_items(an, fresh));
        crate::laws::lemma_run_items_len(idx, an);
        assert(q < its.len());
        assert(its[q] == new_item(an, g as usize));
        lemma_msort(positions(its.len()), crate::plan::item_keys(its));
        assert(positions(its.len())[q] == q as usize);
        assert(positions(its.len()).contains(q as usize));
        assert(order.contains(q as usize));
        let j = choose|j: int| 0 <= j < order.len() && order[j] == q as usize;
        assert(order[j] as int == q);
        assert(its[order[j] as int] == new_item(an, g as usize));
        assert(its[order[j] as int].2 == Origin::New(g as usize));
        lemma_copied_item(an, its, order, fmt, k, j as nat);
        let c = choose|c: int| 0 <= c < first.len() && ((#[trigger] first[c]).2.1, first[c].2.2) == key;
        assert(all[c] == first[c]);
    } else {
        let i = choose|i: int| 0 <= i < unc.len() && unc[i] == g as usize;
        lemma_review_copies(an, unc, numbered, on_disk, unc.len(), i);
        assert(all[first.len() + i] == second[i]);
    }
}

} // verus!
