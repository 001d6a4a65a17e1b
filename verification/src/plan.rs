//! The plan of a run: which filed files are renamed, which new files are
//! copied where, and what the index holds afterwards.
//!
//! Files are grouped by day and numbered within their day in the order of
//! their date, original name and fingerprint; a new file that comes before
//! filed ones renumbers them. Files of the triage folder stay there unless a
//! duplicate has just brought them a reliable date. New files without any
//! reliable date go to the triage folder.
use vstd::prelude::*;
use crate::dedup::{
    find_duplicates, dates_after, healed_after, fresh_after, uncertain_after, dups_after,
    updated_after, lemma_dates_after_valid, lemma_kept_in_range,
};
use crate::library::{Index, IndexEntry, NewEntry, Rec, RecView};
use crate::media::{ext_of, ext_of_path};
use crate::naming::{NameFormat, review_dir_str};
use crate::order::{KeyV, SortKey, key_views, msort, positions, numbering_order};
use crate::place::{pick, pick_target, lemma_pick_is_free};
use crate::stamp::Stamp;
use crate::strmap::{StrMap, Table};
use crate::text::chars_of;
use crate::triage::{review_prefix, review_pick, blocked_by, pick_review_path, lemma_review_pick_is_free};

verus! {

broadcast use vstd::string::group_string_axioms;

/// Where an item to number comes from: an entry of the index or a new file
/// (by position).
#[derive(Clone, Copy, Debug, PartialEq, Eq, Structural)]
pub enum Origin {
    Existing(usize),
    New(usize),
}

/// A file to number: what the index will record of it, its extension, and
/// where it comes from.
pub struct Item {
    pub rec: Rec,
    pub ext: String,
    pub origin: Origin,
}

pub type ItemV = (RecView, Seq<char>, Origin);

impl View for Item {
    type V = ItemV;

    open spec fn view(&self) -> ItemV {
        (self.rec@, self.ext@, self.origin)
    }
}

pub open spec fn item_views(its: Seq<Item>) -> Seq<ItemV> {
    its.map_values(|it: Item| it@)
}

pub open spec fn rec_views(m: Map<Seq<char>, Rec>) -> Map<Seq<char>, RecView> {
    m.map_values(|r: Rec| r@)
}

// ---------- the items to number ----------

/// What the index records of entry `p`, with its date as corrected.
pub open spec fn rec_of_entry(idx: Seq<IndexEntry>, dates: Seq<Stamp>, p: int) -> RecView {
    (dates[p], idx[p].rec.size, idx[p].rec.hash@, idx[p].rec.original@)
}

/// A file of the triage folder stays there unless a duplicate has just
/// brought it a reliable date.
pub open spec fn stays(rel: Seq<char>, hash: Seq<char>, healed: Set<Seq<char>>) -> bool {
    review_prefix().is_prefix_of(rel) && !healed.contains(hash)
}

/// The entries among the first `k` of the index that are numbered again.
pub open spec fn existing_items(idx: Seq<IndexEntry>, dates: Seq<Stamp>, healed: Set<Seq<char>>, k: nat) -> Seq<ItemV>
    decreases k,
{
    if k == 0 {
        Seq::empty()
    } else {
        let s = existing_items(idx, dates, healed, (k - 1) as nat);
        let e = idx[k - 1];
        if stays(e.rel@, e.rec.hash@, healed) {
            s
        } else {
            s.push((rec_of_entry(idx, dates, k - 1), ext_of(e.rel@), Origin::Existing((k - 1) as usize)))
        }
    }
}

/// The entries among the first `k` of the index that stay where they are.
pub open spec fn staying(idx: Seq<IndexEntry>, dates: Seq<Stamp>, healed: Set<Seq<char>>, k: nat) -> Map<Seq<char>, RecView>
    decreases k,
{
    if k == 0 {
        Map::empty()
    } else {
        let m = staying(idx, dates, healed, (k - 1) as nat);
        let e = idx[k - 1];
        if stays(e.rel@, e.rec.hash@, healed) {
            m.insert(e.rel@, rec_of_entry(idx, dates, k - 1))
        } else {
            m
        }
    }
}

/// New file `f` as an item: the index will record its date, size,
/// fingerprint and name.
pub open spec fn new_item(an: Seq<NewEntry>, f: usize) -> ItemV {
    ((an[f as int].ts, an[f as int].size, an[f as int].hash@, an[f as int].name@), an[f as int].ext@, Origin::New(f))
}

pub open spec fn fresh_items(an: Seq<NewEntry>, fresh: Seq<usize>) -> Seq<ItemV> {
    fresh.map_values(|f: usize| new_item(an, f))
}

/// What an item is ordered by: date, original name, fingerprint.
pub open spec fn item_key(it: ItemV) -> KeyV {
    (it.0.0, it.0.3, it.0.2)
}

pub open spec fn item_keys(its: Seq<ItemV>) -> Seq<KeyV> {
    its.map_values(|it: ItemV| item_key(it))
}

fn entry_rec(e: &IndexEntry, ts: Stamp) -> (r: Rec)
    ensures
        r@ == (ts, e.rec.size, e.rec.hash@, e.rec.original@),
{
    Rec { ts, size: e.rec.size, hash: e.rec.hash.clone(), original: e.rec.original.clone() }
}

/// Does the path lie in the triage folder?
fn in_review(rel: &str) -> (r: bool)
    ensures
        r == review_prefix().is_prefix_of(rel@),
{
    let p = chars_of(review_dir_str());
    let cs = chars_of(rel);
    if cs.len() <= p.len() {
        return false;
    }
    let mut i: usize = 0;
    while i < p.len()
        invariant
            p@ == review_prefix().drop_last(),
            cs@ == rel@,
            p.len() + 1 <= cs.len(),
            i <= p.len(),
            forall|j: int| 0 <= j < i ==> cs@[j] == p@[j],
        decreases p.len() - i,
    {
        if cs[i] != p[i] {
            assert(review_prefix()[i as int] == p@[i as int]);
            return false;
        }
        i = i + 1;
    }
    let r = cs[p.len()] == '/';
    proof {
        if r {
            assert(review_prefix() =~= rel@.subrange(0, review_prefix().len() as int));
        } else {
            assert(review_prefix()[p.len() as int] == '/');
        }
    }
    r
}

/// Splits the index: the entries that stay go into the table, the others
/// become items to number.
fn split_index(entries: &Vec<IndexEntry>, dates: &Vec<Stamp>, healed: &StrMap<()>) -> (r: (Vec<Item>, Table<Rec>))
    requires
        healed.wf(),
        dates.len() == entries.len(),
    ensures
        item_views(r.0@) == existing_items(entries@, dates@, healed@.dom(), entries.len() as nat),
        r.1.wf(),
        rec_views(r.1@) == staying(entries@, dates@, healed@.dom(), entries.len() as nat),
{
    let ghost idx = entries@;
    let ghost hs = healed@.dom();
    let mut items: Vec<Item> = Vec::new();
    let mut table: Table<Rec> = Table::new();
    let mut p: usize = 0;
    assert(rec_views(table@) =~= Map::<Seq<char>, RecView>::empty());
    while p < entries.len()
        invariant
            healed.wf(),
            hs == healed@.dom(),
            idx == entries@,
            dates.len() == entries.len(),
            p <= entries.len(),
            table.wf(),
            item_views(items@) == existing_items(idx, dates@, hs, p as nat),
            rec_views(table@) == staying(idx, dates@, hs, p as nat),
        decreases entries.len() - p,
    {
        let e = &entries[p];
        let rec = entry_rec(e, dates[p]);
        let keep = in_review(e.rel.as_str()) && !healed.contains(e.rec.hash.as_str());
        if keep {
            let ghost before = table@;
            table.insert(e.rel.clone(), rec);
            assert(rec_views(table@) =~= rec_views(before).insert(e.rel@, rec@));
        } else {
            let it = Item { rec, ext: ext_of_path(e.rel.as_str()), origin: Origin::Existing(p) };
            let ghost before = items@;
            items.push(it);
            assert(item_views(items@) =~= item_views(before).push(it@));
        }
        p = p + 1;
    }
    (items, table)
}

/// Adds the new files with a reliable date as items, in the order given.
fn add_fresh(items: &mut Vec<Item>, analyzed: &Vec<NewEntry>, fresh: &Vec<usize>)
    requires
        forall|i: int| 0 <= i < fresh.len() ==> fresh@[i] < analyzed.len(),
    ensures
        item_views(final(items)@) == item_views(old(items)@) + fresh_items(analyzed@, fresh@),
{
    let ghost start = item_views(items@);
    let mut i: usize = 0;
    while i < fresh.len()
        invariant
            forall|j: int| 0 <= j < fresh.len() ==> fresh@[j] < analyzed.len(),
            i <= fresh.len(),
            item_views(items@) == start + fresh_items(analyzed@, fresh@.take(i as int)),
        decreases fresh.len() - i,
    {
        let f = fresh[i];
        let e = &analyzed[f];
        let it = Item {
            rec: Rec { ts: e.ts, size: e.size, hash: e.hash.clone(), original: e.name.clone() },
            ext: e.ext.clone(),
            origin: Origin::New(f),
        };
        let ghost before = item_views(items@);
        items.push(it);
        proof {
            assert(it@ == new_item(analyzed@, f));
            assert(fresh@.take(i + 1) =~= fresh@.take(i as int).push(f));
            assert(fresh_items(analyzed@, fresh@.take(i + 1)) =~= fresh_items(analyzed@, fresh@.take(i as int)).push(it@));
            assert(item_views(items@) =~= before.push(it@));
        }
        i = i + 1;
    }
    assert(fresh@.take(i as int) =~= fresh@);
}

/// The sort keys of the items.
fn keys_of(items: &Vec<Item>) -> (r: Vec<SortKey>)
    ensures
        key_views(r@) == item_keys(item_views(items@)),
{
    let mut keys: Vec<SortKey> = Vec::new();
    let mut i: usize = 0;
    while i < items.len()
        invariant
            i <= items.len(),
            key_views(keys@) == item_keys(item_views(items@.take(i as int))),
        decreases items.len() - i,
    {
        let it = &items[i];
        let k = SortKey { ts: it.rec.ts, name: chars_of(it.rec.original.as_str()), hash: chars_of(it.rec.hash.as_str()) };
        let ghost before = key_views(keys@);
        keys.push(k);
        proof {
            assert(items@.take(i + 1) =~= items@.take(i as int).push(*it));
            assert(item_keys(item_views(items@.take(i + 1))) =~= item_keys(item_views(items@.take(i as int))).push(item_key(it@)));
            assert(key_views(keys@) =~= before.push(k@));
        }
        i = i + 1;
    }
    assert(items@.take(i as int) =~= items@);
    keys
}

// ---------- numbering ----------

pub open spec fn same_day(a: Stamp, b: Stamp) -> bool {
    a.year == b.year && a.month == b.month && a.day == b.day
}

/// The number of the `k`-th item taken in order: its rank within its day.
pub open spec fn day_number(its: Seq<ItemV>, order: Seq<usize>, k: int) -> nat
    decreases k,
{
    if k <= 0 {
        1
    } else if same_day(its[order[k - 1] as int].0.0, its[order[k] as int].0.0) {
        day_number(its, order, k - 1) + 1
    } else {
        1
    }
}

/// The path given to the `k`-th item taken in order.
pub open spec fn slot_target(its: Seq<ItemV>, order: Seq<usize>, fmt: NameFormat, k: nat) -> Seq<char>
    decreases k, 1int,
{
    let it = its[order[k as int] as int];
    pick(it.0.0, day_number(its, order, k as int), it.1, fmt, given(its, order, fmt, k))
}

/// The paths given to the first `k` items taken in order.
pub open spec fn given(its: Seq<ItemV>, order: Seq<usize>, fmt: NameFormat, k: nat) -> Set<Seq<char>>
    decreases k, 0int,
{
    if k == 0 {
        Set::empty()
    } else {
        given(its, order, fmt, (k - 1) as nat).insert(slot_target(its, order, fmt, (k - 1) as nat))
    }
}

/// Each item gets a path of its own.
pub proof fn lemma_given(its: Seq<ItemV>, order: Seq<usize>, fmt: NameFormat, k: nat)
    ensures
        given(its, order, fmt, k).finite(),
        given(its, order, fmt, k).len() == k,
        forall|i: nat| i < k ==> given(its, order, fmt, k).contains(#[trigger] slot_target(its, order, fmt, i)),
        forall|i: nat| i >= k ==> !given(its, order, fmt, k).contains(#[trigger] slot_target(its, order, fmt, i)) || exists|j: nat| j < k && slot_target(its, order, fmt, j) == slot_target(its, order, fmt, i),
    decreases k,
{
    if k > 0 {
        let km = (k - 1) as nat;
        lemma_given(its, order, fmt, km);
        let it = its[order[km as int] as int];
        lemma_pick_is_free(it.0.0, day_number(its, order, km as int), it.1, fmt, given(its, order, fmt, km));
        assert(slot_target(its, order, fmt, km) == pick(it.0.0, day_number(its, order, km as int), it.1, fmt, given(its, order, fmt, km)));
        assert(!given(its, order, fmt, km).contains(slot_target(its, order, fmt, km)));
        assert(given(its, order, fmt, k) == given(its, order, fmt, km).insert(slot_target(its, order, fmt, km)));
        assert forall|i: nat| i >= k implies !given(its, order, fmt, k).contains(#[trigger] slot_target(its, order, fmt, i)) || exists|j: nat| j < k && slot_target(its, order, fmt, j) == slot_target(its, order, fmt, i) by {
            if given(its, order, fmt, k).contains(slot_target(its, order, fmt, i)) {
                if slot_target(its, order, fmt, i) == slot_target(its, order, fmt, km) {
                    assert(km < k);
                } else {
                    assert(given(its, order, fmt, km).contains(slot_target(its, order, fmt, i)));
                    let j = choose|j: nat| j < km && slot_target(its, order, fmt, j) == slot_target(its, order, fmt, i);
                    assert(j < k);
                }
            }
        }
    }
}

pub type RenameV = (Seq<char>, Seq<char>);

pub type CopyV = (usize, Seq<char>, RecView, bool);

/// The renames of the first `k` items taken in order: a filed file whose
/// path changes.
pub open spec fn renames_of(idx: Seq<IndexEntry>, its: Seq<ItemV>, order: Seq<usize>, fmt: NameFormat, k: nat) -> Seq<RenameV>
    decreases k,
{
    if k == 0 {
        Seq::empty()
    } else {
        let s = renames_of(idx, its, order, fmt, (k - 1) as nat);
        let to = slot_target(its, order, fmt, (k - 1) as nat);
        match its[order[k - 1] as int].2 {
            Origin::Existing(p) => if idx[p as int].rel@ != to {
                s.push((idx[p as int].rel@, to))
            } else {
                s
            },
            Origin::New(_) => s,
        }
    }
}

/// The copies of the first `k` items taken in order: each new file.
pub open spec fn copies_of(an: Seq<NewEntry>, its: Seq<ItemV>, order: Seq<usize>, fmt: NameFormat, k: nat) -> Seq<CopyV>
    decreases k,
{
    if k == 0 {
        Seq::empty()
    } else {
        let s = copies_of(an, its, order, fmt, (k - 1) as nat);
        let it = its[order[k - 1] as int];
        match it.2 {
            Origin::Existing(_) => s,
            Origin::New(f) => s.push((an[f as int].source_id, slot_target(its, order, fmt, (k - 1) as nat), it.0, false)),
        }
    }
}

/// The index once the filed files among the first `k` items are at their
/// new paths (the new files enter it only once copied).
pub open spec fn numbered_index(base: Map<Seq<char>, RecView>, its: Seq<ItemV>, order: Seq<usize>, fmt: NameFormat, k: nat) -> Map<Seq<char>, RecView>
    decreases k,
{
    if k == 0 {
        base
    } else {
        let m = numbered_index(base, its, order, fmt, (k - 1) as nat);
        let it = its[order[k - 1] as int];
        match it.2 {
            Origin::Existing(_) => m.insert(slot_target(its, order, fmt, (k - 1) as nat), it.0),
            Origin::New(_) => m,
        }
    }
}

pub proof fn lemma_numbered_index_size(base: Map<Seq<char>, RecView>, its: Seq<ItemV>, order: Seq<usize>, fmt: NameFormat, k: nat)
    requires
        base.dom().finite(),
    ensures
        numbered_index(base, its, order, fmt, k).dom().finite(),
        numbered_index(base, its, order, fmt, k).dom().len() <= base.dom().len() + k,
    decreases k,
{
    if k > 0 {
        lemma_numbered_index_size(base, its, order, fmt, (k - 1) as nat);
    }
}

/// A file renamed from one path to another.
pub struct RenamePlan {
    pub from: String,
    pub to: String,
}

impl View for RenamePlan {
    type V = RenameV;

    open spec fn view(&self) -> RenameV {
        (self.from@, self.to@)
    }
}

/// A new file copied (or moved) to a path of the library, with what the
/// index will record of it; `review` tells a file of the triage folder.
pub struct CopyPlan {
    pub source_id: usize,
    pub to: String,
    pub rec: Rec,
    pub review: bool,
}

impl View for CopyPlan {
    type V = CopyV;

    open spec fn view(&self) -> CopyV {
        (self.source_id, self.to@, self.rec@, self.review)
    }
}

pub open spec fn rename_views(s: Seq<RenamePlan>) -> Seq<RenameV> {
    s.map_values(|r: RenamePlan| r@)
}

pub open spec fn copy_views(s: Seq<CopyPlan>) -> Seq<CopyV> {
    s.map_values(|c: CopyPlan| c@)
}

fn same_day_exec(a: &Stamp, b: &Stamp) -> (r: bool)
    ensures
        r == same_day(*a, *b),
{
    a.year == b.year && a.month == b.month && a.day == b.day
}

/// Numbers the items day by day in the given order, gives each its path,
/// and plans the renames and copies.
fn number_items(
    entries: &Vec<IndexEntry>,
    analyzed: &Vec<NewEntry>,
    items: &Vec<Item>,
    order: &Vec<usize>,
    fmt: &NameFormat,
    table: &mut Table<Rec>,
) -> (r: (Vec<RenamePlan>, Vec<CopyPlan>))
    requires
        old(table).wf(),
        order.len() < usize::MAX / 4,
        forall|i: int| 0 <= i < order.len() ==> order@[i] < items.len(),
        forall|i: int| 0 <= i < items.len() ==> (#[trigger] items@[i]).rec.ts.wf(),
        forall|i: int| 0 <= i < items.len() ==> match (#[trigger] items@[i]).origin {
            Origin::Existing(p) => p < entries.len(),
            Origin::New(f) => f < analyzed.len(),
        },
    ensures
        final(table).wf(),
        ({
            let its = item_views(items@);
            let k = order.len() as nat;
            &&& rec_views(final(table)@) == numbered_index(rec_views(old(table)@), its, order@, *fmt, k)
            &&& rename_views(r.0@) == renames_of(entries@, its, order@, *fmt, k)
            &&& copy_views(r.1@) == copies_of(analyzed@, its, order@, *fmt, k)
        }),
{
    let ghost its = item_views(items@);
    let ghost base = rec_views(table@);
    let mut pris: StrMap<()> = StrMap::new();
    let mut renames: Vec<RenamePlan> = Vec::new();
    let mut copies: Vec<CopyPlan> = Vec::new();
    let mut n: usize = 0;
    let mut k: usize = 0;
    assert(pris@.dom() =~= given(its, order@, *fmt, 0));
    while k < order.len()
        invariant
            its == item_views(items@),
            order.len() < usize::MAX / 4,
            forall|i: int| 0 <= i < order.len() ==> order@[i] < items.len(),
            forall|i: int| 0 <= i < items.len() ==> (#[trigger] items@[i]).rec.ts.wf(),
            forall|i: int| 0 <= i < items.len() ==> match (#[trigger] items@[i]).origin {
                Origin::Existing(p) => p < entries.len(),
                Origin::New(f) => f < analyzed.len(),
            },
            k <= order.len(),
            pris.wf(),
            pris@.dom() == given(its, order@, *fmt, k as nat),
            k > 0 ==> n == day_number(its, order@, k - 1),
            n <= k,
            table.wf(),
            rec_views(table@) == numbered_index(base, its, order@, *fmt, k as nat),
            rename_views(renames@) == renames_of(entries@, its, order@, *fmt, k as nat),
            copy_views(copies@) == copies_of(analyzed@, its, order@, *fmt, k as nat),
        decreases order.len() - k,
    {
        let it = &items[order[k]];
        assert(it@ == its[order@[k as int] as int]);
        if k == 0 || !same_day_exec(&items[order[k - 1]].rec.ts, &it.rec.ts) {
            n = 1;
        } else {
            n = n + 1;
        }
        assert(n == day_number(its, order@, k as int));
        proof {
            lemma_given(its, order@, *fmt, k as nat);
        }
        let to = pick_target(&it.rec.ts, n, it.ext.as_str(), fmt, &pris);
        assert(to@ == slot_target(its, order@, *fmt, k as nat));
        pris.insert(to.clone(), ());
        match it.origin {
            Origin::Existing(p) => {
                let from = &entries[p].rel;
                if !crate::text::str_eq(from.as_str(), to.as_str()) {
                    let ghost before = rename_views(renames@);
                    let rp = RenamePlan { from: from.clone(), to: to.clone() };
                    renames.push(rp);
                    assert(rename_views(renames@) =~= before.push(rp@));
                }
                let ghost before = table@;
                table.insert(to, it.rec.duplicate());
                assert(rec_views(table@) =~= rec_views(before).insert(to@, it@.0));
            },
            Origin::New(f) => {
                let ghost before = copy_views(copies@);
                let cp = CopyPlan { source_id: analyzed[f].source_id, to, rec: it.rec.duplicate(), review: false };
                copies.push(cp);
                assert(copy_views(copies@) =~= before.push(cp@));
            },
        }
        k = k + 1;
    }
    (renames, copies)
}

proof fn lemma_existing_items(idx: Seq<IndexEntry>, dates: Seq<Stamp>, healed: Set<Seq<char>>, k: nat)
    requires
        k <= idx.len(),
        dates.len() == idx.len(),
        forall|p: int| 0 <= p < dates.len() ==> (#[trigger] dates[p]).wf(),
    ensures
        existing_items(idx, dates, healed, k).len() <= k,
        forall|i: int| 0 <= i < existing_items(idx, dates, healed, k).len() ==> {
            let it = #[trigger] existing_items(idx, dates, healed, k)[i];
            &&& it.0.0.wf()
            &&& it.2 matches Origin::Existing(p) && p < k
        },
        staying(idx, dates, healed, k).dom().finite(),
        staying(idx, dates, healed, k).dom().len() <= k,
        recs_valid(staying(idx, dates, healed, k)),
    decreases k,
{
    if k > 0 {
        lemma_existing_items(idx, dates, healed, (k - 1) as nat);
        assert(dates[k - 1].wf());
    }
}

/// Every date the index records exists.
pub open spec fn recs_valid(m: Map<Seq<char>, RecView>) -> bool {
    forall|k: Seq<char>| m.contains_key(k) ==> (#[trigger] m[k]).0.wf()
}

proof fn lemma_numbered_valid(base: Map<Seq<char>, RecView>, its: Seq<ItemV>, order: Seq<usize>, fmt: NameFormat, k: nat)
    requires
        recs_valid(base),
        k <= order.len(),
        forall|i: int| 0 <= i < order.len() ==> order[i] < its.len(),
        forall|i: int| 0 <= i < its.len() ==> (#[trigger] its[i]).0.0.wf(),
    ensures
        recs_valid(numbered_index(base, its, order, fmt, k)),
    decreases k,
{
    if k > 0 {
        lemma_numbered_valid(base, its, order, fmt, (k - 1) as nat);
        assert(its[order[k - 1] as int].0.0.wf());
    }
}

proof fn lemma_copies_valid(an: Seq<NewEntry>, its: Seq<ItemV>, order: Seq<usize>, fmt: NameFormat, k: nat)
    requires
        k <= order.len(),
        forall|i: int| 0 <= i < order.len() ==> order[i] < its.len(),
        forall|i: int| 0 <= i < its.len() ==> (#[trigger] its[i]).0.0.wf(),
    ensures
        forall|i: int| 0 <= i < copies_of(an, its, order, fmt, k).len() ==> (#[trigger] copies_of(an, its, order, fmt, k)[i]).2.0.wf(),
    decreases k,
{
    if k > 0 {
        lemma_copies_valid(an, its, order, fmt, (k - 1) as nat);
        let it = its[order[k - 1] as int];
        assert(it.0.0.wf());
        let prev = copies_of(an, its, order, fmt, (k - 1) as nat);
        let cur = copies_of(an, its, order, fmt, k);
        assert forall|i: int| 0 <= i < cur.len() implies (#[trigger] cur[i]).2.0.wf() by {
            if i < prev.len() {
                assert(cur[i] == prev[i]);
            } else {
                assert(cur[i].2 == it.0);
            }
        }
    }
}

// ---------- the triage folder ----------

/// The path in the triage folder of the `k`-th file without a reliable date.
pub open spec fn review_target(an: Seq<NewEntry>, unc: Seq<usize>, base: Map<Seq<char>, RecView>, on_disk: Set<Seq<char>>, k: nat) -> Seq<char>
    decreases k, 1int,
{
    review_pick(an[unc[k as int] as int].name@, blocked_by(base, planned_review(an, unc, base, on_disk, k), on_disk))
}

/// The paths of the triage folder given to the first `k` such files.
pub open spec fn planned_review(an: Seq<NewEntry>, unc: Seq<usize>, base: Map<Seq<char>, RecView>, on_disk: Set<Seq<char>>, k: nat) -> Set<Seq<char>>
    decreases k, 0int,
{
    if k == 0 {
        Set::empty()
    } else {
        planned_review(an, unc, base, on_disk, (k - 1) as nat).insert(review_target(an, unc, base, on_disk, (k - 1) as nat))
    }
}

/// The copies of the first `k` files without a reliable date.
pub open spec fn review_copies(an: Seq<NewEntry>, unc: Seq<usize>, base: Map<Seq<char>, RecView>, on_disk: Set<Seq<char>>, k: nat) -> Seq<CopyV>
    decreases k,
{
    if k == 0 {
        Seq::empty()
    } else {
        let u = unc[k - 1] as int;
        review_copies(an, unc, base, on_disk, (k - 1) as nat).push((
            an[u].source_id,
            review_target(an, unc, base, on_disk, (k - 1) as nat),
            (an[u].ts, an[u].size, an[u].hash@, an[u].name@),
            true,
        ))
    }
}

proof fn lemma_review_copies_valid(an: Seq<NewEntry>, unc: Seq<usize>, base: Map<Seq<char>, RecView>, on_disk: Set<Seq<char>>, k: nat)
    requires
        k <= unc.len(),
        forall|i: int| 0 <= i < unc.len() ==> unc[i] < an.len(),
        forall|i: int| 0 <= i < an.len() ==> (#[trigger] an[i]).ts.wf(),
    ensures
        forall|i: int| 0 <= i < review_copies(an, unc, base, on_disk, k).len() ==> (#[trigger] review_copies(an, unc, base, on_disk, k)[i]).2.0.wf(),
        review_copies(an, unc, base, on_disk, k).len() == k,
    decreases k,
{
    if k > 0 {
        lemma_review_copies_valid(an, unc, base, on_disk, (k - 1) as nat);
        assert(an[unc[k - 1] as int].ts.wf());
    }
}

pub proof fn lemma_planned_review(an: Seq<NewEntry>, unc: Seq<usize>, base: Map<Seq<char>, RecView>, on_disk: Set<Seq<char>>, k: nat)
    ensures
        planned_review(an, unc, base, on_disk, k).finite(),
        planned_review(an, unc, base, on_disk, k).len() <= k,
    decreases k,
{
    if k > 0 {
        lemma_planned_review(an, unc, base, on_disk, (k - 1) as nat);
    }
}

/// Plans the copies of the files without a reliable date into the triage
/// folder.
fn place_uncertain(
    analyzed: &Vec<NewEntry>,
    unc: &Vec<usize>,
    table: &Table<Rec>,
    on_disk: &StrMap<()>,
    copies: &mut Vec<CopyPlan>,
)
    requires
        table.wf(),
        on_disk.wf(),
        forall|i: int| 0 <= i < unc.len() ==> unc@[i] < analyzed.len(),
        table@.dom().len() + unc.len() + on_disk@.dom().len() + 3 < usize::MAX,
    ensures
        copy_views(final(copies)@) == copy_views(old(copies)@) + review_copies(
            analyzed@,
            unc@,
            rec_views(table@),
            on_disk@.dom(),
            unc.len() as nat,
        ),
{
    let ghost base = rec_views(table@);
    let ghost start = copy_views(copies@);
    let ghost disk = on_disk@.dom();
    assert(base.dom() =~= table@.dom());
    let mut planned: StrMap<()> = StrMap::new();
    let mut k: usize = 0;
    assert(planned@.dom() =~= planned_review(analyzed@, unc@, base, disk, 0));
    while k < unc.len()
        invariant
            table.wf(),
            on_disk.wf(),
            base == rec_views(table@),
            base.dom() == table@.dom(),
            disk == on_disk@.dom(),
            forall|i: int| 0 <= i < unc.len() ==> unc@[i] < analyzed.len(),
            table@.dom().len() + unc.len() + on_disk@.dom().len() + 3 < usize::MAX,
            k <= unc.len(),
            planned.wf(),
            planned@.dom() == planned_review(analyzed@, unc@, base, disk, k as nat),
            copy_views(copies@) == start + review_copies(analyzed@, unc@, base, disk, k as nat),
        decreases unc.len() - k,
    {
        let e = &analyzed[unc[k]];
        proof {
            lemma_planned_review(analyzed@, unc@, base, disk, k as nat);
        }
        let to = pick_review_path(e.name.as_str(), table, &planned, on_disk);
        assert(to@ == review_target(analyzed@, unc@, base, disk, k as nat));
        planned.insert(to.clone(), ());
        let cp = CopyPlan {
            source_id: e.source_id,
            to,
            rec: Rec { ts: e.ts, size: e.size, hash: e.hash.clone(), original: e.name.clone() },
            review: true,
        };
        let ghost before = copy_views(copies@);
        copies.push(cp);
        assert(copy_views(copies@) =~= before.push(cp@));
        k = k + 1;
    }
}

// ---------- the whole plan ----------

/// The texts of a list of strings, as a set.
pub open spec fn text_set(v: Seq<String>) -> Set<Seq<char>>
    decreases v.len(),
{
    if v.len() == 0 {
        Set::empty()
    } else {
        text_set(v.drop_last()).insert(v.last()@)
    }
}

proof fn lemma_text_set(v: Seq<String>)
    ensures
        text_set(v).finite(),
        text_set(v).len() <= v.len(),
    decreases v.len(),
{
    if v.len() > 0 {
        lemma_text_set(v.drop_last());
    }
}

fn set_of_texts(v: &Vec<String>) -> (r: StrMap<()>)
    ensures
        r.wf(),
        r@.dom() == text_set(v@),
{
    let mut m: StrMap<()> = StrMap::new();
    let mut i: usize = 0;
    assert(m@.dom() =~= text_set(v@.take(0)));
    while i < v.len()
        invariant
            i <= v.len(),
            m.wf(),
            m@.dom() == text_set(v@.take(i as int)),
        decreases v.len() - i,
    {
        m.insert(v[i].clone(), ());
        assert(v@.take(i + 1).drop_last() =~= v@.take(i as int));
        i = i + 1;
    }
    assert(v@.take(i as int) =~= v@);
    m
}

/// The items of a run: the filed files numbered again, then the new files
/// with a reliable date.
pub open spec fn run_items(idx: Seq<IndexEntry>, an: Seq<NewEntry>) -> Seq<ItemV> {
    let n = an.len();
    existing_items(idx, dates_after(idx, an, n), healed_after(idx, an, n), idx.len())
        + fresh_items(an, fresh_after(idx, an, n))
}

/// The order in which the items of a run are numbered.
pub open spec fn run_order(idx: Seq<IndexEntry>, an: Seq<NewEntry>) -> Seq<usize> {
    let its = run_items(idx, an);
    msort(positions(its.len()), item_keys(its))
}

/// The index once the filed files are numbered again.
pub open spec fn run_index(idx: Seq<IndexEntry>, an: Seq<NewEntry>, fmt: NameFormat) -> Map<Seq<char>, RecView> {
    let n = an.len();
    let its = run_items(idx, an);
    let order = run_order(idx, an);
    numbered_index(
        staying(idx, dates_after(idx, an, n), healed_after(idx, an, n), idx.len()),
        its,
        order,
        fmt,
        order.len(),
    )
}

pub type PlanV = (Seq<RenameV>, Seq<CopyV>, Map<Seq<char>, RecView>, Set<Seq<char>>, nat, nat);

/// What a run plans, given the index, the analysed new files, the format,
/// and the paths present on disk in the triage folder: the renames, the
/// copies, the index after the renames, the fingerprints of the files
/// whose date was corrected, and the counts of duplicates and corrections.
pub open spec fn planned(idx: Seq<IndexEntry>, an: Seq<NewEntry>, fmt: NameFormat, on_disk: Set<Seq<char>>) -> PlanV {
    let n = an.len();
    let its = run_items(idx, an);
    let order = run_order(idx, an);
    let k = order.len();
    let unc = uncertain_after(idx, an, n);
    let numbered = run_index(idx, an, fmt);
    (
        renames_of(idx, its, order, fmt, k),
        copies_of(an, its, order, fmt, k) + review_copies(an, unc, numbered, on_disk, unc.len()),
        numbered,
        healed_after(idx, an, n),
        dups_after(idx, an, n),
        updated_after(idx, an, n),
    )
}

/// The plan of a run.
pub struct Plan {
    pub renames: Vec<RenamePlan>,
    pub copies: Vec<CopyPlan>,
    pub index: Table<Rec>,
    pub healed: StrMap<()>,
    pub duplicates: usize,
    pub updated: usize,
}

impl View for Plan {
    type V = PlanV;

    open spec fn view(&self) -> PlanV {
        (
            rename_views(self.renames@),
            copy_views(self.copies@),
            rec_views(self.index@),
            self.healed@.dom(),
            self.duplicates as nat,
            self.updated as nat,
        )
    }
}

/// Plans a run: finds the duplicates among the analysed new files,
/// corrects the dates they bring, numbers the files day by day, and places
/// the files without a reliable date in the triage folder. `on_disk` lists
/// the paths present in the triage folder.
pub fn plan(index: &Index, analyzed: &Vec<NewEntry>, fmt: &NameFormat, on_disk: &Vec<String>) -> (p: Plan)
    requires
        index.wf(),
        forall|i: int| 0 <= i < analyzed.len() ==> (#[trigger] analyzed@[i]).ts.wf(),
        index.spec_entries().len() + analyzed.len() + on_disk.len() < usize::MAX / 8,
    ensures
        p.index.wf(),
        p.healed.wf(),
        p@ == planned(index.spec_entries(), analyzed@, *fmt, text_set(on_disk@)),
        recs_valid(p@.2),
        forall|i: int| 0 <= i < p@.1.len() ==> (#[trigger] p@.1[i]).2.0.wf(),
{
    let ghost idx = index.spec_entries();
    let ghost an = analyzed@;
    let entries = index.entries();
    let d = find_duplicates(index, analyzed);
    proof {
        index.lemma_wf();
        lemma_dates_after_valid(idx, an, an.len());
        lemma_kept_in_range(idx, an, an.len());
        lemma_existing_items(idx, d.dates@, d.healed@.dom(), idx.len());
    }
    let (mut items, mut table) = split_index(entries, &d.dates, &d.healed);
    let ghost existing = item_views(items@);
    add_fresh(&mut items, analyzed, &d.fresh);
    let ghost its = item_views(items@);
    assert(its == run_items(idx, an));
    let keys = keys_of(&items);
    assert(key_views(keys@).len() == keys.len());
    assert(item_keys(its).len() == its.len());
    assert(keys.len() == items.len());
    let order = numbering_order(&keys);
    assert(order@ == run_order(idx, an));
    assert(its.len() == existing.len() + d.fresh.len());
    assert(order.len() <= idx.len() + an.len());
    proof {
        assert forall|i: int| 0 <= i < items.len() implies (#[trigger] items@[i]).rec.ts.wf() && match items@[i].origin {
            Origin::Existing(p) => p < entries.len(),
            Origin::New(f) => f < analyzed.len(),
        } by {
            assert(its[i] == items@[i]@);
            if i < existing.len() {
                assert(its[i] == existing[i]);
            } else {
                let f = d.fresh@[i - existing.len()];
                assert(its[i] == new_item(an, f));
            }
        }
    }
    let ghost base = rec_views(table@);
    let (renames, mut copies) = number_items(entries, analyzed, &items, &order, fmt, &mut table);
    assert(rec_views(table@) == run_index(idx, an, *fmt));
    let disk = set_of_texts(on_disk);
    proof {
        lemma_numbered_index_size(base, its, order@, *fmt, order.len() as nat);
        lemma_text_set(on_disk@);
        assert(rec_views(table@).dom() =~= table@.dom());
    }
    proof {
        assert forall|i: int| 0 <= i < its.len() implies (#[trigger] its[i]).0.0.wf() by {
            assert(its[i] == items@[i]@);
            assert(items@[i].rec.ts.wf());
        }
        lemma_numbered_valid(base, its, order@, *fmt, order.len() as nat);
        lemma_copies_valid(an, its, order@, *fmt, order.len() as nat);
    }
    let ghost numbered_copies = copy_views(copies@);
    place_uncertain(analyzed, &d.uncertain, &table, &disk, &mut copies);
    proof {
        lemma_review_copies_valid(an, d.uncertain@, rec_views(table@), disk@.dom(), d.uncertain.len() as nat);
        let rc = review_copies(an, d.uncertain@, rec_views(table@), disk@.dom(), d.uncertain.len() as nat);
        assert forall|i: int| 0 <= i < copy_views(copies@).len() implies (#[trigger] copy_views(copies@)[i]).2.0.wf() by {
            if i < numbered_copies.len() {
                assert(copy_views(copies@)[i] == numbered_copies[i]);
            } else {
                assert(copy_views(copies@)[i] == rc[i - numbered_copies.len()]);
            }
        }
    }
    Plan { renames, copies, index: table, healed: d.healed, duplicates: d.duplicates, updated: d.updated }
}

} // verus!
